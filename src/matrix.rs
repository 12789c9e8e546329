use vstd::prelude::*;

verus! {

/// A dense matrix of `rows` x `cols` elements. Element `(r, c)` lives at
/// index `r + c * rows` of `data`: columns are stored one after another.
#[derive(Clone, Debug)]
pub struct Matrix<T> {
    pub rows: usize,
    pub cols: usize,
    pub data: Vec<T>,
}

/// Flat position of element `(r, c)` in a matrix with `rows` rows.
pub open spec fn flat(r: int, c: int, rows: int) -> int {
    r + c * rows
}

/// An in-range element has an in-range flat position.
pub proof fn lemma_flat_bounds(r: int, c: int, rows: int, cols: int)
    requires
        0 <= r < rows,
        0 <= c < cols,
    ensures
        0 <= c * rows <= flat(r, c, rows) < rows * cols,
{
    assert(0 <= c * rows) by (nonlinear_arith)
        requires
            0 <= c,
            0 <= r < rows,
    ;
    assert(r + c * rows < rows * cols) by (nonlinear_arith)
        requires
            0 <= r < rows,
            0 <= c < cols,
    ;
}

/// Distinct in-range elements have distinct flat positions.
pub proof fn lemma_flat_injective(r1: int, c1: int, r2: int, c2: int, rows: int)
    requires
        0 <= r1 < rows,
        0 <= r2 < rows,
        0 <= c1,
        0 <= c2,
        flat(r1, c1, rows) == flat(r2, c2, rows),
    ensures
        r1 == r2,
        c1 == c2,
{
    assert(c1 == c2) by (nonlinear_arith)
        requires
            0 <= r1 < rows,
            0 <= r2 < rows,
            0 <= c1,
            0 <= c2,
            r1 + c1 * rows == r2 + c2 * rows,
    ;
}

/// Earlier positions in column-major order have smaller flat positions.
pub proof fn lemma_flat_order(r1: int, c1: int, r2: int, c2: int, rows: int)
    requires
        0 <= r1 < rows,
        0 <= r2 < rows,
        0 <= c1 <= c2,
        c1 < c2 || r1 < r2,
    ensures
        flat(r1, c1, rows) < flat(r2, c2, rows),
{
    if c1 < c2 {
        assert(r1 + c1 * rows < r2 + c2 * rows) by (nonlinear_arith)
            requires
                0 <= r1 < rows,
                0 <= r2,
                0 <= c1 < c2,
        ;
    }
}

/// `s` is what accumulating, from `zero`, the products of the first `n`
/// elements of row `i` of `a` with the first `n` elements of column `j` of
/// `b` gives: term by term, in order, `mul` forms a product and `add` adds it
/// to the sum so far.
pub open spec fn is_dot<T, M: Fn(T, T) -> T, A: Fn(T, T) -> T>(
    a: Matrix<T>,
    b: Matrix<T>,
    i: int,
    j: int,
    n: nat,
    zero: T,
    mul: M,
    add: A,
    s: T,
) -> bool
    decreases n,
{
    if n == 0 {
        s == zero
    } else {
        exists|acc: T, p: T|
            #![trigger add.ensures((acc, p), s)]
            is_dot(a, b, i, j, (n - 1) as nat, zero, mul, add, acc) && mul.ensures(
                (a.at(i, n - 1), b.at(n - 1, j)),
                p,
            ) && add.ensures((acc, p), s)
    }
}

/// `s` is what adding up, from `zero` and in order, the first `n` elements
/// of row `r` of `m` with `add` gives.
pub open spec fn is_row_sum<T, A: Fn(T, T) -> T>(m: Matrix<T>, r: int, n: nat, zero: T, add: A, s: T) -> bool
    decreases n,
{
    if n == 0 {
        s == zero
    } else {
        exists|acc: T, x: T|
            #![trigger add.ensures((acc, x), s)]
            x == m.at(r, n - 1) && add.ensures((acc, x), s) && is_row_sum(m, r, (n - 1) as nat, zero, add, acc)
    }
}

/// The buffers of `parts`, one after another. For column-major matrices with
/// the same number of rows this is the buffer of their column-concatenation.
pub open spec fn concat_data<T>(parts: Seq<Matrix<T>>) -> Seq<T>
    decreases parts.len(),
{
    if parts.len() == 0 {
        Seq::empty()
    } else {
        concat_data(parts.drop_last()) + parts.last().data@
    }
}

/// `p` lists each of `0 .. n` exactly once.
pub open spec fn is_permutation(p: Seq<usize>, n: nat) -> bool {
    &&& p.len() == n
    &&& forall|j: int| 0 <= j < n ==> #[trigger] p[j] < n
    &&& p.no_duplicates()
}

/// The numbers `0 .. n` in increasing order.
pub open spec fn identity_order(n: nat) -> Seq<usize> {
    Seq::new(n, |i: int| i as usize)
}

/// Relies on rand's `SliceRandom::shuffle`, driven by the thread-local
/// generator of `rand::rng`: it only swaps elements, so the same elements
/// come back, in an order that chance decides.
#[verifier::external_body]
fn shuffle_in_place(v: &mut Vec<usize>)
    ensures
        final(v)@.to_multiset() == old(v)@.to_multiset(),
        final(v)@.len() == old(v)@.len(),
{
    rand::seq::SliceRandom::shuffle(v.as_mut_slice(), &mut rand::rng())
}

/// Whether `p` lists each of `0 .. n` exactly once.
pub fn check_permutation(p: &Vec<usize>, n: usize) -> (r: bool)
    ensures
        r == is_permutation(p@, n as nat),
{
    if p.len() != n {
        return false;
    }
    let mut seen: Vec<bool> = Vec::with_capacity(n);
    let mut v: usize = 0;
    while v < n
        invariant
            v <= n,
            seen@.len() == v,
            forall|k: int| 0 <= k < v ==> !(#[trigger] seen@[k]),
        decreases n - v,
    {
        seen.push(false);
        v = v + 1;
    }
    let mut i: usize = 0;
    while i < n
        invariant
            p@.len() == n,
            i <= n,
            seen@.len() == n,
            forall|j: int| 0 <= j < i ==> #[trigger] p@[j] < n,
            forall|j: int| 0 <= j < i ==> #[trigger] seen@[p@[j] as int],
            forall|k: int| 0 <= k < n && #[trigger] seen@[k] ==> exists|j: int| 0 <= j < i && p@[j] == k,
            forall|a: int, b: int| 0 <= a < i && 0 <= b < i && a != b ==> p@[a] != p@[b],
        decreases n - i,
    {
        let x = p[i];
        if x >= n {
            return false;
        }
        if seen[x] {
            proof {
                let j = choose|j: int| 0 <= j < i && p@[j] == x;
                assert(p@[j] == p@[i as int]);
            }
            return false;
        }
        seen.set(x, true);
        i = i + 1;
    }
    true
}

/// Every index below `n` appears in a permutation of `0 .. n`.
pub proof fn lemma_permutation_covers(p: Seq<usize>, n: nat, v: usize)
    requires
        is_permutation(p, n),
        v < n,
    ensures
        exists|j: int| 0 <= j < n && p[j] == v,
{
    let q = Seq::new(n, |j: int| p[j] as int);
    assert(q.no_duplicates()) by {
        assert forall|a: int, b: int| 0 <= a < q.len() && 0 <= b < q.len() && a != b implies q[a] != q[b] by {
            assert(p[a] != p[b]);
        }
    }
    q.unique_seq_to_set();
    vstd::set_lib::lemma_int_range(0, n as int);
    let range = vstd::set_lib::set_int_range(0, n as int);
    assert(q.to_set().subset_of(range)) by {
        assert forall|x: int| q.to_set().contains(x) implies range.contains(x) by {
            assert(q.contains(x));
            let j = choose|j: int| 0 <= j < q.len() && q[j] == x;
            assert(p[j] < n);
        }
    }
    vstd::set_lib::lemma_subset_equality(q.to_set(), range);
    assert(range.contains(v as int));
    assert(q.to_set().contains(v as int));
    assert(q.contains(v as int));
    let j = choose|j: int| 0 <= j < q.len() && q[j] == v as int;
    assert(p[j] == v);
}

/// The order that undoes `p`: `q[p[j]] == j` and `p[q[v]] == v`.
pub fn inverse_permutation(p: &Vec<usize>) -> (q: Vec<usize>)
    requires
        is_permutation(p@, p@.len()),
    ensures
        is_permutation(q@, p@.len()),
        forall|j: int| 0 <= j < p@.len() ==> q@[#[trigger] p@[j] as int] == j,
        forall|v: int| 0 <= v < p@.len() ==> p@[#[trigger] q@[v] as int] == v,
{
    let n = p.len();
    let mut q: Vec<usize> = Vec::with_capacity(n);
    let mut i: usize = 0;
    while i < n
        invariant
            i <= n,
            q@.len() == i,
        decreases n - i,
    {
        q.push(0);
        i = i + 1;
    }
    let mut j: usize = 0;
    while j < n
        invariant
            n == p@.len(),
            is_permutation(p@, n as nat),
            j <= n,
            q@.len() == n,
            forall|k: int| 0 <= k < j ==> q@[#[trigger] p@[k] as int] == k,
        decreases n - j,
    {
        let target = p[j];
        proof {
            assert forall|k: int| 0 <= k < j implies p@[k] != target by {
                assert(p@[k] != p@[j as int]);
            }
        }
        q.set(target, j);
        j = j + 1;
    }
    proof {
        assert forall|v: int| 0 <= v < n implies p@[#[trigger] q@[v] as int] == v by {
            lemma_permutation_covers(p@, n as nat, v as usize);
            let k = choose|k: int| 0 <= k < n && p@[k] == v as usize;
            assert(q@[p@[k] as int] == k);
        }
        assert forall|v: int| 0 <= v < n implies #[trigger] q@[v] < n by {
            lemma_permutation_covers(p@, n as nat, v as usize);
            let k = choose|k: int| 0 <= k < n && p@[k] == v as usize;
            assert(q@[p@[k] as int] == k);
        }
        assert forall|a: int, b: int| 0 <= a < n && 0 <= b < n && a != b implies q@[a] != q@[b] by {
            assert(p@[q@[a] as int] == a);
            assert(p@[q@[b] as int] == b);
        }
    }
    q
}

/// Why a matrix operation refused its operands.
#[derive(Clone, Copy, Debug, PartialEq, Eq, Structural)]
pub enum MatrixError {
    /// The operands' shapes do not agree.
    DimensionMismatch { left_rows: usize, left_cols: usize, right_rows: usize, right_cols: usize },
    /// A column order has `found` entries where the matrix has `expected`
    /// columns.
    LengthMismatch { expected: usize, found: usize },
    /// A column order is not a bijection on the column indices.
    NotAPermutation,
}

/// Two matrices with the same shape that agree on every element hold the same
/// buffer.
pub proof fn lemma_same_elements<T>(a: Matrix<T>, b: Matrix<T>)
    requires
        a.wf(),
        b.wf(),
        a.rows == b.rows,
        a.cols == b.cols,
        forall|r: int, c: int| 0 <= r < a.rows && 0 <= c < a.cols ==> a.at(r, c) == b.at(r, c),
    ensures
        a.data@ == b.data@,
{
    assert forall|k: int| 0 <= k < a.data@.len() implies a.data@[k] == b.data@[k] by {
        let rows = a.rows as int;
        let cols = a.cols as int;
        assert(rows > 0) by (nonlinear_arith)
            requires
                0 <= k < rows * cols,
                rows >= 0,
                cols >= 0,
        ;
        let r = k % rows;
        let c = k / rows;
        vstd::arithmetic::div_mod::lemma_fundamental_div_mod(k, rows);
        assert(c < cols) by (nonlinear_arith)
            requires
                k == rows * c + r,
                0 <= r < rows,
                k < rows * cols,
        ;
        assert(0 <= c) by (nonlinear_arith)
            requires
                k == rows * c + r,
                0 <= k,
                0 <= r < rows,
        ;
        assert(flat(r, c, rows) == k) by (nonlinear_arith)
            requires
                k == rows * c + r,
        ;
        assert(a.at(r, c) == b.at(r, c));
    }
    assert(a.data@ =~= b.data@);
}

impl<T> Matrix<T> {
    /// Element `(r, c)`.
    pub open spec fn at(&self, r: int, c: int) -> T {
        self.data@[flat(r, c, self.rows as int)]
    }

    /// `self` and `o` are the same matrix: same shape, same buffer.
    pub open spec fn same(&self, o: Matrix<T>) -> bool {
        &&& self.rows == o.rows
        &&& self.cols == o.cols
        &&& self.data@ == o.data@
    }

    /// `self` is the transpose of `m`.
    pub open spec fn is_transpose_of(&self, m: Matrix<T>) -> bool {
        &&& self.wf()
        &&& self.rows == m.cols
        &&& self.cols == m.rows
        &&& forall|r: int, c: int|
            0 <= r < m.rows && 0 <= c < m.cols ==> #[trigger] self.at(c, r) == m.at(r, c)
    }

    /// `self` is the product `a * b` formed with `times` and `plus` from
    /// `zero` (see `is_dot`).
    pub open spec fn is_product_of<M: Fn(T, T) -> T, A: Fn(T, T) -> T>(
        &self,
        a: Matrix<T>,
        b: Matrix<T>,
        zero: T,
        times: M,
        plus: A,
    ) -> bool {
        &&& self.wf()
        &&& self.rows == a.rows
        &&& self.cols == b.cols
        &&& forall|i: int, j: int|
            0 <= i < self.rows && 0 <= j < self.cols ==> is_dot(
                a,
                b,
                i,
                j,
                a.cols as nat,
                zero,
                times,
                plus,
                #[trigger] self.at(i, j),
            )
    }

    /// `self` is the column of the row sums of `m`, each formed with `plus`
    /// from `zero` (see `is_row_sum`).
    pub open spec fn is_row_sums_of<A: Fn(T, T) -> T>(&self, m: Matrix<T>, zero: T, plus: A) -> bool {
        &&& self.wf()
        &&& self.rows == m.rows
        &&& self.cols == 1
        &&& forall|row: int|
            0 <= row < m.rows ==> is_row_sum(m, row, m.cols as nat, zero, plus, #[trigger] self.at(row, 0))
    }

    /// `self` holds, at each position, a result of `f` on the elements of `a`
    /// and `b` at that position.
    pub open spec fn is_zip_of<F: Fn(T, T) -> T>(&self, a: Matrix<T>, b: Matrix<T>, f: F) -> bool {
        &&& self.wf()
        &&& self.rows == a.rows
        &&& self.cols == a.cols
        &&& forall|i: int|
            0 <= i < self.data@.len() ==> f.ensures((a.data@[i], b.data@[i]), #[trigger] self.data@[i])
    }

    /// `self` holds, at each position, a result of `f` on the element of `a`
    /// at that position.
    pub open spec fn is_map_of<F: Fn(T) -> T>(&self, a: Matrix<T>, f: F) -> bool {
        &&& self.wf()
        &&& self.rows == a.rows
        &&& self.cols == a.cols
        &&& forall|i: int| 0 <= i < self.data@.len() ==> f.ensures((a.data@[i],), #[trigger] self.data@[i])
    }

    /// `self` is the block of the `width` columns of `m` that start at column
    /// `start`.
    pub open spec fn is_block_of(&self, m: Matrix<T>, start: int, width: int) -> bool {
        &&& self.wf()
        &&& self.rows == m.rows
        &&& self.cols == width
        &&& self.data@ == m.data@.subrange(start * m.rows, (start + width) * m.rows)
    }

    /// `self` is `m` with its columns reordered by `p`: column `j` of `self`
    /// is column `p[j]` of `m`.
    pub open spec fn is_shuffle_of(&self, m: Matrix<T>, p: Seq<usize>) -> bool {
        &&& self.wf()
        &&& self.rows == m.rows
        &&& self.cols == m.cols
        &&& forall|r: int, j: int|
            0 <= r < m.rows && 0 <= j < m.cols ==> #[trigger] self.at(r, j) == m.at(r, p[j] as int)
    }

    /// The buffer holds exactly `rows * cols` elements.
    pub open spec fn wf(&self) -> bool {
        &&& self.data@.len() == self.rows * self.cols
        &&& self.rows * self.cols <= usize::MAX
    }
}

impl<T: Copy> Matrix<T> {
    /// A matrix of the given shape with every element equal to `fill`.
    pub fn new(rows: usize, cols: usize, fill: T) -> (m: Matrix<T>)
        requires
            rows * cols <= usize::MAX,
        ensures
            m.wf(),
            m.rows == rows,
            m.cols == cols,
            forall|i: int| 0 <= i < m.data@.len() ==> m.data@[i] == fill,
            forall|r: int, c: int| 0 <= r < rows && 0 <= c < cols ==> #[trigger] m.at(r, c) == fill,
    {
        let n: usize = rows * cols;
        let mut data: Vec<T> = Vec::with_capacity(n);
        let mut i: usize = 0;
        while i < n
            invariant
                i <= n,
                data@.len() == i,
                forall|k: int| 0 <= k < i ==> data@[k] == fill,
            decreases n - i,
        {
            data.push(fill);
            i = i + 1;
        }
        let m = Matrix { rows, cols, data };
        assert forall|r: int, c: int| 0 <= r < rows && 0 <= c < cols implies #[trigger] m.at(r, c) == fill by {
            lemma_flat_bounds(r, c, rows as int, cols as int);
        }
        m
    }

    /// Element `(r, c)`; the indices must be in range.
    pub fn get(&self, r: usize, c: usize) -> (v: T)
        requires
            self.wf(),
            r < self.rows,
            c < self.cols,
        ensures
            v == self.at(r as int, c as int),
    {
        proof {
            lemma_flat_bounds(r as int, c as int, self.rows as int, self.cols as int);
        }
        self.data[r + c * self.rows]
    }

    /// Replaces element `(r, c)` by `v`, leaving every other element as it
    /// was; the indices must be in range.
    pub fn set(&mut self, r: usize, c: usize, v: T)
        requires
            old(self).wf(),
            r < old(self).rows,
            c < old(self).cols,
        ensures
            final(self).wf(),
            final(self).rows == old(self).rows,
            final(self).cols == old(self).cols,
            final(self).data@ == old(self).data@.update(flat(r as int, c as int, old(self).rows as int), v),
            forall|r2: int, c2: int|
                0 <= r2 < final(self).rows && 0 <= c2 < final(self).cols ==> #[trigger] final(self).at(r2, c2)
                    == if r2 == r && c2 == c {
                    v
                } else {
                    old(self).at(r2, c2)
                },
    {
        proof {
            lemma_flat_bounds(r as int, c as int, self.rows as int, self.cols as int);
        }
        let i: usize = r + c * self.rows;
        self.data.set(i, v);
        proof {
            assert forall|r2: int, c2: int|
                0 <= r2 < self.rows && 0 <= c2 < self.cols implies #[trigger] self.at(r2, c2)
                    == if r2 == r && c2 == c {
                    v
                } else {
                    old(self).at(r2, c2)
                } by {
                lemma_flat_bounds(r2, c2, self.rows as int, self.cols as int);
                if flat(r2, c2, self.rows as int) == i as int {
                    lemma_flat_injective(r2, c2, r as int, c as int, self.rows as int);
                }
            }
        }
    }

    /// An independent copy: same shape, same elements.
    pub fn clone_matrix(&self) -> (c: Matrix<T>)
        ensures
            c.same(*self),
    {
        let n = self.data.len();
        let mut data: Vec<T> = Vec::with_capacity(n);
        let mut i: usize = 0;
        while i < n
            invariant
                n == self.data@.len(),
                i <= n,
                data@ == self.data@.subrange(0, i as int),
            decreases n - i,
        {
            data.push(self.data[i]);
            proof {
                assert(data@ =~= self.data@.subrange(0, i + 1));
            }
            i = i + 1;
        }
        proof {
            assert(data@ =~= self.data@);
        }
        Matrix { rows: self.rows, cols: self.cols, data }
    }

    /// The matrix with rows and columns swapped.
    pub fn transpose(&self) -> (t: Matrix<T>)
        requires
            self.wf(),
        ensures
            t.is_transpose_of(*self),
    {
        if self.data.len() == 0 {
            proof {
                let (rows, cols) = (self.rows as int, self.cols as int);
                assert(rows == 0 || cols == 0) by (nonlinear_arith)
                    requires
                        rows * cols == 0,
                ;
                assert(cols * rows == 0) by (nonlinear_arith)
                    requires
                        rows == 0 || cols == 0,
                ;
            }
            return Matrix { rows: self.cols, cols: self.rows, data: Vec::new() };
        }
        proof {
            assert(self.cols * self.rows == self.rows * self.cols) by (nonlinear_arith);
        }
        let mut result = Matrix::new(self.cols, self.rows, self.data[0]);
        let mut row: usize = 0;
        while row < self.rows
            invariant
                self.wf(),
                row <= self.rows,
                result.wf(),
                result.rows == self.cols,
                result.cols == self.rows,
                forall|r: int, c: int|
                    0 <= r < row && 0 <= c < self.cols ==> #[trigger] result.at(c, r) == self.at(r, c),
            decreases self.rows - row,
        {
            let mut col: usize = 0;
            while col < self.cols
                invariant
                    self.wf(),
                    row < self.rows,
                    col <= self.cols,
                    result.wf(),
                    result.rows == self.cols,
                    result.cols == self.rows,
                    forall|r: int, c: int|
                        0 <= r < row && 0 <= c < self.cols ==> #[trigger] result.at(c, r) == self.at(r, c),
                    forall|c: int| 0 <= c < col ==> #[trigger] result.at(c, row as int) == self.at(row as int, c),
                decreases self.cols - col,
            {
                let v = self.get(row, col);
                result.set(col, row, v);
                col = col + 1;
            }
            row = row + 1;
        }
        result
    }

    /// Combines the elements at each position of `self` and `other` with `f`.
    /// Each result element depends on the two matching elements alone.
    pub fn zip_with<F: Fn(T, T) -> T>(&self, other: &Matrix<T>, f: F) -> (r: Result<Matrix<T>, MatrixError>)
        requires
            self.wf(),
            other.wf(),
            forall|x: T, y: T| f.requires((x, y)),
        ensures
            r.is_ok() <==> (self.rows == other.rows && self.cols == other.cols),
            r.is_err() ==> r == Err::<Matrix<T>, MatrixError>(
                MatrixError::DimensionMismatch {
                    left_rows: self.rows,
                    left_cols: self.cols,
                    right_rows: other.rows,
                    right_cols: other.cols,
                },
            ),
            r.is_ok() ==> r.unwrap().is_zip_of(*self, *other, f),
    {
        if self.rows != other.rows || self.cols != other.cols {
            return Err(
                MatrixError::DimensionMismatch {
                    left_rows: self.rows,
                    left_cols: self.cols,
                    right_rows: other.rows,
                    right_cols: other.cols,
                },
            );
        }
        let n = self.data.len();
        let mut data: Vec<T> = Vec::with_capacity(n);
        let mut i: usize = 0;
        while i < n
            invariant
                n == self.data@.len(),
                n == other.data@.len(),
                i <= n,
                data@.len() == i,
                forall|x: T, y: T| f.requires((x, y)),
                forall|k: int| 0 <= k < i ==> f.ensures((self.data@[k], other.data@[k]), #[trigger] data@[k]),
            decreases n - i,
        {
            let v = f(self.data[i], other.data[i]);
            data.push(v);
            i = i + 1;
        }
        Ok(Matrix { rows: self.rows, cols: self.cols, data })
    }

    /// The block of columns `start .. end`, in order.
    pub fn columns(&self, start: usize, end: usize) -> (b: Matrix<T>)
        requires
            self.wf(),
            start <= end <= self.cols,
        ensures
            b.is_block_of(*self, start as int, end - start),
    {
        let rows = self.rows;
        proof {
            assert(end * rows <= self.cols * rows) by (nonlinear_arith)
                requires
                    end <= self.cols,
            ;
            assert(start * rows <= end * rows) by (nonlinear_arith)
                requires
                    start <= end,
            ;
            assert(self.cols * rows == self.rows * self.cols) by (nonlinear_arith)
                requires
                    rows == self.rows,
            ;
        }
        let lo: usize = start * rows;
        let hi: usize = end * rows;
        let mut data: Vec<T> = Vec::with_capacity(hi - lo);
        let mut k: usize = lo;
        while k < hi
            invariant
                self.wf(),
                lo <= k <= hi,
                hi <= self.data@.len(),
                data@ == self.data@.subrange(lo as int, k as int),
            decreases hi - k,
        {
            data.push(self.data[k]);
            proof {
                assert(data@ =~= self.data@.subrange(lo as int, k + 1));
            }
            k = k + 1;
        }
        proof {
            assert(rows * (end - start) == hi - lo) by (nonlinear_arith)
                requires
                    hi == end * rows,
                    lo == start * rows,
                    start <= end,
            ;
        }
        Matrix { rows, cols: end - start, data }
    }

    /// Cuts the columns into consecutive batches of `batch_size` columns; the
    /// last batch holds what is left and may be narrower. Column order is
    /// kept, so the batches' buffers, one after another, are `self`'s buffer.
    pub fn split_into_batches(&self, batch_size: usize) -> (r: Vec<Matrix<T>>)
        requires
            self.wf(),
            batch_size > 0,
        ensures
            r@.len() == (self.cols + batch_size - 1) / batch_size as int,
            forall|b: int|
                #![trigger r@[b]]
                0 <= b < r@.len() ==> r@[b].is_block_of(
                    *self,
                    b * batch_size,
                    if b < r@.len() - 1 {
                        batch_size as int
                    } else {
                        self.cols - b * batch_size
                    },
                ),
            concat_data(r@) == self.data@,
    {
        let rows = self.rows;
        let mut batches: Vec<Matrix<T>> = Vec::new();
        let mut start: usize = 0;
        while start < self.cols
            invariant
                self.wf(),
                rows == self.rows,
                batch_size > 0,
                start <= self.cols,
                batches@.len() * batch_size >= start,
                start < self.cols ==> start == batches@.len() * batch_size,
                batches@.len() > 0 ==> (batches@.len() - 1) * batch_size < start,
                forall|b: int|
                    #![trigger batches@[b]]
                    0 <= b < batches@.len() ==> batches@[b].is_block_of(
                        *self,
                        b * batch_size,
                        if b < batches@.len() - 1 || start < self.cols {
                            batch_size as int
                        } else {
                            self.cols - b * batch_size
                        },
                    ),
                start * rows <= self.data@.len(),
                concat_data(batches@) == self.data@.subrange(0, start * rows),
            decreases self.cols - start,
        {
            let width: usize = if self.cols - start < batch_size {
                self.cols - start
            } else {
                batch_size
            };
            let end: usize = start + width;
            proof {
                assert(end * rows <= self.cols * rows) by (nonlinear_arith)
                    requires
                        end <= self.cols,
                ;
                assert(start * rows <= end * rows) by (nonlinear_arith)
                    requires
                        start <= end,
                ;
                assert(self.cols * rows == self.rows * self.cols) by (nonlinear_arith)
                    requires
                        rows == self.rows,
                ;
            }
            let batch = self.columns(start, end);
            proof {
                let old_batches = batches@;
                let new_batches = old_batches.push(batch);
                assert(new_batches.drop_last() =~= old_batches);
                assert(concat_data(new_batches) =~= self.data@.subrange(0, end * rows));
                assert(old_batches.len() * batch_size == start) by {
                    if old_batches.len() > 0 {
                        assert(start == old_batches.len() * batch_size);
                    }
                }
                assert((old_batches.len() + 1) * batch_size == start + batch_size) by (nonlinear_arith)
                    requires
                        old_batches.len() * batch_size == start,
                ;
            }
            batches.push(batch);
            start = end;
        }
        proof {
            let n = batches@.len() as int;
            let bs = batch_size as int;
            let cols = self.cols as int;
            assert(start * rows == self.data@.len()) by (nonlinear_arith)
                requires
                    start == cols,
                    self.data@.len() == rows * cols,
            ;
            assert(self.data@.subrange(0, start * rows) =~= self.data@);
            if n > 0 {
                assert((n - 1) * bs == n * bs - bs) by (nonlinear_arith);
            }
            assert(0 <= cols + bs - 1 - n * bs < bs);
            vstd::arithmetic::div_mod::lemma_fundamental_div_mod_converse(
                cols + bs - 1,
                bs,
                n,
                cols + bs - 1 - n * bs,
            );
        }
        batches
    }

    /// A random order of the column indices, each exactly once. The order
    /// comes from the thread-local generator and is not reproducible.
    pub fn generate_shuffled_indices(&self) -> (r: Vec<usize>)
        ensures
            is_permutation(r@, self.cols as nat),
    {
        let n = self.cols;
        let mut indices: Vec<usize> = Vec::with_capacity(n);
        let mut i: usize = 0;
        while i < n
            invariant
                i <= n,
                indices@ == identity_order(i as nat),
            decreases n - i,
        {
            indices.push(i);
            proof {
                assert(indices@ =~= identity_order((i + 1) as nat));
            }
            i = i + 1;
        }
        let ghost before = indices@;
        shuffle_in_place(&mut indices);
        proof {
            let after = indices@;
            assert(before.no_duplicates());
            before.lemma_multiset_has_no_duplicates();
            assert forall|x: usize| after.to_multiset().contains(x) implies after.to_multiset().count(x) == 1 by {
            }
            after.lemma_multiset_has_no_duplicates_conv();
            assert forall|j: int| 0 <= j < n implies #[trigger] after[j] < n by {
                vstd::seq_lib::to_multiset_contains(after, after[j]);
                vstd::seq_lib::to_multiset_contains(before, after[j]);
                assert(after.contains(after[j]));
                let k = choose|k: int| 0 <= k < before.len() && before[k] == after[j];
            }
        }
        indices
    }

    /// Reorders the columns: afterwards column `j` holds what column
    /// `indices[j]` held. Rows within a column are untouched. On an error the
    /// matrix is left as it was.
    pub fn shuffle_columns(&mut self, indices: &Vec<usize>) -> (r: Result<(), MatrixError>)
        requires
            old(self).wf(),
        ensures
            indices@.len() != old(self).cols ==> r == Err::<(), MatrixError>(
                MatrixError::LengthMismatch { expected: old(self).cols, found: indices.len() },
            ),
            indices@.len() == old(self).cols && !is_permutation(indices@, old(self).cols as nat) ==> r
                == Err::<(), MatrixError>(MatrixError::NotAPermutation),
            r.is_ok() <==> is_permutation(indices@, old(self).cols as nat),
            r.is_ok() ==> final(self).is_shuffle_of(*old(self), indices@),
            r.is_err() ==> *final(self) == *old(self),
    {
        if indices.len() != self.cols {
            return Err(MatrixError::LengthMismatch { expected: self.cols, found: indices.len() });
        }
        if !check_permutation(indices, self.cols) {
            return Err(MatrixError::NotAPermutation);
        }
        let rows = self.rows;
        let cols = self.cols;
        let mut data: Vec<T> = Vec::with_capacity(self.data.len());
        let mut j: usize = 0;
        while j < cols
            invariant
                self.wf(),
                rows == self.rows,
                cols == self.cols,
                is_permutation(indices@, cols as nat),
                j <= cols,
                data@.len() == j * rows,
                forall|r2: int, j2: int|
                    0 <= r2 < rows && 0 <= j2 < j ==> #[trigger] data@[flat(r2, j2, rows as int)] == self.at(
                        r2,
                        indices@[j2] as int,
                    ),
            decreases cols - j,
        {
            let src = indices[j];
            let mut r: usize = 0;
            while r < rows
                invariant
                    self.wf(),
                    rows == self.rows,
                    cols == self.cols,
                    j < cols,
                    src < cols,
                    src == indices@[j as int],
                    r <= rows,
                    data@.len() == flat(r as int, j as int, rows as int),
                    forall|r2: int, j2: int|
                        0 <= r2 < rows && 0 <= j2 < j ==> #[trigger] data@[flat(r2, j2, rows as int)]
                            == self.at(r2, indices@[j2] as int),
                    forall|r2: int|
                        0 <= r2 < r ==> #[trigger] data@[flat(r2, j as int, rows as int)] == self.at(
                            r2,
                            src as int,
                        ),
                decreases rows - r,
            {
                let v = self.get(r, src);
                proof {
                    lemma_flat_bounds(r as int, j as int, rows as int, cols as int);
                    assert forall|r2: int, j2: int| 0 <= r2 < rows && 0 <= j2 <= j && (j2 < j || r2 < r) implies
                        flat(r2, j2, rows as int) < data@.len() by {
                        lemma_flat_order(r2, j2, r as int, j as int, rows as int);
                    }
                }
                data.push(v);
                r = r + 1;
            }
            proof {
                assert(flat(rows as int, j as int, rows as int) == (j + 1) * rows) by (nonlinear_arith);
            }
            j = j + 1;
        }
        proof {
            assert(cols * rows == rows * cols) by (nonlinear_arith);
        }
        let ghost before = *self;
        self.data = data;
        proof {
            assert forall|r2: int, j2: int| 0 <= r2 < rows && 0 <= j2 < cols implies #[trigger] self.at(r2, j2)
                == before.at(r2, indices@[j2] as int) by {
                assert(self.at(r2, j2) == data@[flat(r2, j2, rows as int)]);
            }
        }
        Ok(())
    }

    /// The matrix product `self * other`. Element `(i, j)` accumulates, from
    /// `zero` and in order of `k`, the products of `self(i, k)` and
    /// `other(k, j)`: `times` forms each product and `plus` adds it.
    pub fn mul<M: Fn(T, T) -> T, A: Fn(T, T) -> T>(&self, other: &Matrix<T>, zero: T, times: M, plus: A) -> (r:
        Result<Matrix<T>, MatrixError>)
        requires
            self.wf(),
            other.wf(),
            self.rows * other.cols <= usize::MAX,
            forall|x: T, y: T| times.requires((x, y)),
            forall|x: T, y: T| plus.requires((x, y)),
        ensures
            r.is_ok() <==> self.cols == other.rows,
            r.is_err() ==> r == Err::<Matrix<T>, MatrixError>(
                MatrixError::DimensionMismatch {
                    left_rows: self.rows,
                    left_cols: self.cols,
                    right_rows: other.rows,
                    right_cols: other.cols,
                },
            ),
            r.is_ok() ==> r.unwrap().is_product_of(*self, *other, zero, times, plus),
    {
        if self.cols != other.rows {
            return Err(
                MatrixError::DimensionMismatch {
                    left_rows: self.rows,
                    left_cols: self.cols,
                    right_rows: other.rows,
                    right_cols: other.cols,
                },
            );
        }
        let rows = self.rows;
        let mut data: Vec<T> = Vec::new();
        let mut j: usize = 0;
        while j < other.cols
            invariant
                self.wf(),
                other.wf(),
                self.cols == other.rows,
                rows == self.rows,
                rows * other.cols <= usize::MAX,
                j <= other.cols,
                data@.len() == j * rows,
                forall|x: T, y: T| times.requires((x, y)),
                forall|x: T, y: T| plus.requires((x, y)),
                forall|i2: int, j2: int|
                    0 <= i2 < rows && 0 <= j2 < j ==> is_dot(
                        *self,
                        *other,
                        i2,
                        j2,
                        self.cols as nat,
                        zero,
                        times,
                        plus,
                        #[trigger] data@[flat(i2, j2, rows as int)],
                    ),
            decreases other.cols - j,
        {
            let mut i: usize = 0;
            while i < rows
                invariant
                    self.wf(),
                    other.wf(),
                    self.cols == other.rows,
                    rows == self.rows,
                    rows * other.cols <= usize::MAX,
                    j < other.cols,
                    i <= rows,
                    data@.len() == flat(i as int, j as int, rows as int),
                    forall|x: T, y: T| times.requires((x, y)),
                    forall|x: T, y: T| plus.requires((x, y)),
                    forall|i2: int, j2: int|
                        0 <= i2 < rows && 0 <= j2 < j ==> is_dot(
                            *self,
                            *other,
                            i2,
                            j2,
                            self.cols as nat,
                            zero,
                            times,
                            plus,
                            #[trigger] data@[flat(i2, j2, rows as int)],
                        ),
                    forall|i2: int|
                        0 <= i2 < i ==> is_dot(
                            *self,
                            *other,
                            i2,
                            j as int,
                            self.cols as nat,
                            zero,
                            times,
                            plus,
                            #[trigger] data@[flat(i2, j as int, rows as int)],
                        ),
                decreases rows - i,
            {
                let mut sum = zero;
                let mut k: usize = 0;
                while k < self.cols
                    invariant
                        self.wf(),
                        other.wf(),
                        self.cols == other.rows,
                        i < self.rows,
                        j < other.cols,
                        k <= self.cols,
                        forall|x: T, y: T| times.requires((x, y)),
                        forall|x: T, y: T| plus.requires((x, y)),
                        is_dot(*self, *other, i as int, j as int, k as nat, zero, times, plus, sum),
                    decreases self.cols - k,
                {
                    let a = self.get(i, k);
                    let b = other.get(k, j);
                    let p = times(a, b);
                    let next = plus(sum, p);
                    assert(is_dot(*self, *other, i as int, j as int, ((k + 1) - 1) as nat, zero, times, plus, sum));
                    assert(times.ensures((self.at(i as int, (k + 1) - 1), other.at((k + 1) - 1, j as int)), p));
                    assert(plus.ensures((sum, p), next));
                    assert(is_dot(*self, *other, i as int, j as int, (k + 1) as nat, zero, times, plus, next));
                    sum = next;
                    k = k + 1;
                }
                proof {
                    lemma_flat_bounds(i as int, j as int, rows as int, other.cols as int);
                    assert forall|i2: int, j2: int| 0 <= i2 < rows && 0 <= j2 <= j implies
                        flat(i2, j2, rows as int) < data@.len() || (i2 >= i && j2 == j) by {
                        if j2 < j || i2 < i {
                            lemma_flat_order(i2, j2, i as int, j as int, rows as int);
                        }
                    }
                }
                data.push(sum);
                i = i + 1;
            }
            proof {
                assert(flat(rows as int, j as int, rows as int) == (j + 1) * rows) by (nonlinear_arith);
            }
            j = j + 1;
        }
        proof {
            assert(other.cols * rows == self.rows * other.cols) by (nonlinear_arith)
                requires
                    rows == self.rows,
            ;
        }
        let p = Matrix { rows, cols: other.cols, data };
        Ok(p)
    }

    /// Applies `f` to every element (a scalar multiple, a square root, an
    /// activation).
    pub fn map<F: Fn(T) -> T>(&self, f: F) -> (r: Matrix<T>)
        requires
            self.wf(),
            forall|x: T| f.requires((x,)),
        ensures
            r.is_map_of(*self, f),
    {
        let n = self.data.len();
        let mut data: Vec<T> = Vec::with_capacity(n);
        let mut i: usize = 0;
        while i < n
            invariant
                n == self.data@.len(),
                i <= n,
                data@.len() == i,
                forall|x: T| f.requires((x,)),
                forall|k: int| 0 <= k < i ==> f.ensures((self.data@[k],), #[trigger] data@[k]),
            decreases n - i,
        {
            let v = f(self.data[i]);
            data.push(v);
            i = i + 1;
        }
        Matrix { rows: self.rows, cols: self.cols, data }
    }
}

/// Transposing twice gives back the matrix, element for element.
pub proof fn lemma_transpose_involution<T>(a: Matrix<T>, t: Matrix<T>, tt: Matrix<T>)
    requires
        a.wf(),
        t.is_transpose_of(a),
        tt.is_transpose_of(t),
    ensures
        tt.same(a),
{
    assert forall|r: int, c: int| 0 <= r < a.rows && 0 <= c < a.cols implies tt.at(r, c) == a.at(r, c) by {
        assert(t.at(c, r) == a.at(r, c));
        assert(tt.at(r, c) == t.at(c, r));
    }
    lemma_same_elements(tt, a);
}

/// Combining `a` with `b` and `b` with `a` element-wise gives the same matrix
/// when the element operation does not depend on the order of its operands
/// (`A + B == B + A`).
pub proof fn lemma_zip_commutes<T, F: Fn(T, T) -> T>(a: Matrix<T>, b: Matrix<T>, f: F, ab: Matrix<T>, ba: Matrix<T>)
    requires
        a.wf(),
        b.wf(),
        a.rows == b.rows,
        a.cols == b.cols,
        ab.is_zip_of(a, b, f),
        ba.is_zip_of(b, a, f),
        forall|x: T, y: T, u: T, v: T| f.ensures((x, y), u) && f.ensures((y, x), v) ==> u == v,
    ensures
        ab.same(ba),
{
    assert forall|i: int| 0 <= i < ab.data@.len() implies ab.data@[i] == ba.data@[i] by {
        assert(f.ensures((a.data@[i], b.data@[i]), ab.data@[i]));
        assert(f.ensures((b.data@[i], a.data@[i]), ba.data@[i]));
    }
    assert(ab.data@ =~= ba.data@);
}

/// Negating `b - a` element-wise gives `a - b` when the element operations
/// satisfy `-(y - x) == x - y` (`A - B == -(B - A)`).
pub proof fn lemma_sub_antisymmetric<T, S: Fn(T, T) -> T, N: Fn(T) -> T>(
    a: Matrix<T>,
    b: Matrix<T>,
    minus: S,
    neg: N,
    a_minus_b: Matrix<T>,
    b_minus_a: Matrix<T>,
    negated: Matrix<T>,
)
    requires
        a.wf(),
        b.wf(),
        a.rows == b.rows,
        a.cols == b.cols,
        a_minus_b.is_zip_of(a, b, minus),
        b_minus_a.is_zip_of(b, a, minus),
        negated.is_map_of(b_minus_a, neg),
        forall|x: T, y: T, d: T, e: T, n: T|
            minus.ensures((x, y), d) && minus.ensures((y, x), e) && neg.ensures((e,), n) ==> n == d,
    ensures
        negated.same(a_minus_b),
{
    assert forall|i: int| 0 <= i < negated.data@.len() implies negated.data@[i] == a_minus_b.data@[i] by {
        assert(minus.ensures((a.data@[i], b.data@[i]), a_minus_b.data@[i]));
        assert(minus.ensures((b.data@[i], a.data@[i]), b_minus_a.data@[i]));
        assert(neg.ensures((b_minus_a.data@[i],), negated.data@[i]));
    }
    assert(negated.data@ =~= a_minus_b.data@);
}

/// Multiplying by `b` element-wise and then dividing by `b` gives back `a`
/// when `b` holds no `zero` and the element operations satisfy
/// `(x * y) / y == x` for `y != zero` (`(A ⊙ B) ⊘ B == A`).
pub proof fn lemma_mul_div_inverse<T, M: Fn(T, T) -> T, D: Fn(T, T) -> T>(
    a: Matrix<T>,
    b: Matrix<T>,
    zero: T,
    times: M,
    divide: D,
    product: Matrix<T>,
    quotient: Matrix<T>,
)
    requires
        a.wf(),
        b.wf(),
        a.rows == b.rows,
        a.cols == b.cols,
        forall|i: int| 0 <= i < b.data@.len() ==> #[trigger] b.data@[i] != zero,
        product.is_zip_of(a, b, times),
        quotient.is_zip_of(product, b, divide),
        forall|x: T, y: T, p: T, q: T|
            y != zero && times.ensures((x, y), p) && divide.ensures((p, y), q) ==> q == x,
    ensures
        quotient.same(a),
{
    assert forall|i: int| 0 <= i < quotient.data@.len() implies quotient.data@[i] == a.data@[i] by {
        assert(times.ensures((a.data@[i], b.data@[i]), product.data@[i]));
        assert(divide.ensures((product.data@[i], b.data@[i]), quotient.data@[i]));
        assert(b.data@[i] != zero);
    }
    assert(quotient.data@ =~= a.data@);
}

/// Reordering the columns by the identity order leaves the matrix as it was.
pub proof fn lemma_shuffle_identity<T>(m: Matrix<T>, shuffled: Matrix<T>)
    requires
        m.wf(),
        shuffled.is_shuffle_of(m, identity_order(m.cols as nat)),
    ensures
        shuffled.same(m),
{
    assert forall|r: int, c: int| 0 <= r < m.rows && 0 <= c < m.cols implies shuffled.at(r, c) == m.at(r, c) by {
        assert(shuffled.at(r, c) == m.at(r, identity_order(m.cols as nat)[c] as int));
    }
    lemma_same_elements(shuffled, m);
}

/// Reordering the columns by `p` and then by its inverse `q` (`q[p[j]] == j`)
/// restores the matrix.
pub proof fn lemma_shuffle_inverse<T>(m: Matrix<T>, p: Seq<usize>, q: Seq<usize>, once: Matrix<T>, twice: Matrix<T>)
    requires
        m.wf(),
        is_permutation(p, m.cols as nat),
        is_permutation(q, m.cols as nat),
        forall|j: int| 0 <= j < m.cols ==> q[p[j] as int] == j,
        once.is_shuffle_of(m, p),
        twice.is_shuffle_of(once, q),
    ensures
        twice.same(m),
{
    assert forall|r: int, c: int| 0 <= r < m.rows && 0 <= c < m.cols implies twice.at(r, c) == m.at(r, c) by {
        let k = q[c] as int;
        assert(q[k] < m.cols);
        assert(q[p[k] as int] == k);
        assert(p[k] < m.cols);
        assert(p[k] as int == c);
        assert(twice.at(r, c) == once.at(r, k));
        assert(once.at(r, k) == m.at(r, p[k] as int));
    }
    lemma_same_elements(twice, m);
}

/// One column holding the sum of each row of `matrix`: the sums are formed
/// with `plus` from `zero`, left to right along the row.
pub fn sum_cols<T: Copy, A: Fn(T, T) -> T>(matrix: &Matrix<T>, zero: T, plus: A) -> (r: Matrix<T>)
    requires
        matrix.wf(),
        forall|x: T, y: T| plus.requires((x, y)),
    ensures
        r.is_row_sums_of(*matrix, zero, plus),
{
    let mut data: Vec<T> = Vec::with_capacity(matrix.rows);
    let mut row: usize = 0;
    while row < matrix.rows
        invariant
            matrix.wf(),
            row <= matrix.rows,
            data@.len() == row,
            forall|x: T, y: T| plus.requires((x, y)),
            forall|k: int| 0 <= k < row ==> is_row_sum(*matrix, k, matrix.cols as nat, zero, plus, #[trigger] data@[k]),
        decreases matrix.rows - row,
    {
        let mut sum = zero;
        let mut col: usize = 0;
        while col < matrix.cols
            invariant
                matrix.wf(),
                row < matrix.rows,
                col <= matrix.cols,
                forall|x: T, y: T| plus.requires((x, y)),
                is_row_sum(*matrix, row as int, col as nat, zero, plus, sum),
            decreases matrix.cols - col,
        {
            let v = matrix.get(row, col);
            let next = plus(sum, v);
            proof {
                let n: nat = (col + 1) as nat;
                assert(plus.ensures((sum, matrix.at(row as int, n - 1)), next));
                assert(is_row_sum(*matrix, row as int, (n - 1) as nat, zero, plus, sum));
                assert(is_row_sum(*matrix, row as int, n, zero, plus, next));
            }
            sum = next;
            col = col + 1;
        }
        data.push(sum);
        row = row + 1;
    }
    let r = Matrix { rows: matrix.rows, cols: 1, data };
    assert forall|row: int| 0 <= row < matrix.rows implies is_row_sum(
        *matrix,
        row,
        matrix.cols as nat,
        zero,
        plus,
        #[trigger] r.at(row, 0),
    ) by {
        assert(flat(row, 0, r.rows as int) == row);
    }
    r
}

} // verus!
