//! Shape-rearranging operations on two-dimensional arrays, and the
//! identity-like integer constructors.

use vstd::prelude::*;

use crate::ndarray::{NdArray, products_ok};
use crate::shape::{Shape, dims_product};
use crate::storage::Storage;

verus! {

/// The product of no dimension sizes is one.
pub proof fn lemma_product_empty()
    ensures
        dims_product(Seq::<usize>::empty()) == 1,
{
}

/// A one-element dimension list multiplies out to that element.
pub proof fn lemma_product_singleton(dims: Seq<usize>)
    requires
        dims.len() == 1,
    ensures
        dims_product(dims) == dims[0],
{
    lemma_product_empty();
    assert(dims.skip(1) =~= Seq::<usize>::empty());
}

/// A two-element dimension list multiplies out to the product of its entries.
pub proof fn lemma_product_pair(dims: Seq<usize>)
    requires
        dims.len() == 2,
    ensures
        dims_product(dims) == dims[0] * dims[1],
{
    assert(dims.skip(1) =~= seq![dims[1]]);
    lemma_product_singleton(dims.skip(1));
    assert(dims_product(dims) == dims[0] * dims_product(dims.skip(1)));
}

/// A one-element dimension list multiplies out to that element, and all its
/// prefix and suffix products fit in `usize`.
pub proof fn lemma_products_ok_1(dims: Seq<usize>)
    requires
        dims.len() == 1,
    ensures
        products_ok(dims),
        dims_product(dims) == dims[0],
{
    lemma_product_empty();
    lemma_product_singleton(dims);
    assert(dims.skip(1) =~= Seq::<usize>::empty());
    assert forall|i: int| 0 <= i <= 1 implies dims_product(#[trigger] dims.take(i)) <= usize::MAX by {
        if i == 0 {
            assert(dims.take(0) =~= Seq::<usize>::empty());
        } else {
            assert(dims.take(1) =~= dims);
        }
    }
    assert forall|i: int| 0 <= i <= 1 implies dims_product(#[trigger] dims.skip(i)) <= usize::MAX by {
        if i == 0 {
            assert(dims.skip(0) =~= dims);
        } else {
            assert(dims.skip(1) =~= Seq::<usize>::empty());
        }
    }
}

/// A two-element dimension list multiplies out to the product of its entries,
/// and when that fits in `usize` so do all prefix and suffix products.
pub proof fn lemma_products_ok_2(dims: Seq<usize>)
    requires
        dims.len() == 2,
        dims[0] * dims[1] <= usize::MAX,
    ensures
        products_ok(dims),
        dims_product(dims) == dims[0] * dims[1],
{
    lemma_product_empty();
    lemma_product_pair(dims);
    assert(dims.skip(1) =~= seq![dims[1]]);
    lemma_product_singleton(dims.skip(1));
    assert forall|i: int| 0 <= i <= 2 implies dims_product(#[trigger] dims.take(i)) <= usize::MAX by {
        if i == 0 {
            assert(dims.take(0) =~= Seq::<usize>::empty());
        } else if i == 1 {
            assert(dims.take(1) =~= seq![dims[0]]);
            lemma_product_singleton(dims.take(1));
        } else {
            assert(dims.take(2) =~= dims);
        }
    }
    assert forall|i: int| 0 <= i <= 2 implies dims_product(#[trigger] dims.skip(i)) <= usize::MAX by {
        if i == 0 {
            assert(dims.skip(0) =~= dims);
        } else if i == 2 {
            assert(dims.skip(2) =~= Seq::<usize>::empty());
        }
    }
}

impl<T: Copy> NdArray<T> {
    /// The transpose of a two-dimensional array: entry `(r, c)` of the result
    /// is entry `(c, r)` of `self`.
    pub fn transpose(&self) -> (a: Self)
        requires
            self.wf(),
            self.dims_spec().len() == 2,
        ensures
            a.wf(),
            a.dims_spec() =~= seq![self.dims_spec()[1], self.dims_spec()[0]],
            a@.len() == self@.len(),
            forall|r: int, c: int|
                0 <= r < self.dims_spec()[1] && 0 <= c < self.dims_spec()[0]
                    ==> #[trigger] a@[r * self.dims_spec()[0] + c] == self@[c * self.dims_spec()[1] + r],
    {
        let n = match self.shape().dim(0) {
            Some(d) => d,
            None => 0,
        };
        let m = match self.shape().dim(1) {
            Some(d) => d,
            None => 0,
        };
        proof {
            assert(self.dims_spec() =~= seq![n, m]);
            self.lemma_wf_facts();
            assert(self.dims_spec().skip(0) =~= self.dims_spec());
            assert(dims_product(self.dims_spec().skip(0)) <= usize::MAX);
            lemma_product_pair(self.dims_spec());
        }
        let src = self.as_slice();
        let mut data: Vec<T> = Vec::new();
        let mut j: usize = 0;
        while j < m
            invariant
                self.wf(),
                self.dims_spec() =~= seq![n, m],
                self@.len() == n * m,
                n * m <= usize::MAX,
                src@ == self@,
                j <= m,
                data@.len() == j * n,
                forall|a: int, b: int|
                    0 <= a < j && 0 <= b < n ==> #[trigger] data@[a * n + b] == self@[b * m + a],
            decreases m - j,
        {
            let mut i: usize = 0;
            while i < n
                invariant
                    self.wf(),
                    self.dims_spec() =~= seq![n, m],
                    self@.len() == n * m,
                    n * m <= usize::MAX,
                    src@ == self@,
                    j < m,
                    i <= n,
                    data@.len() == j * n + i,
                    forall|a: int, b: int|
                        0 <= a < j && 0 <= b < n ==> #[trigger] data@[a * n + b] == self@[b * m + a],
                    forall|b: int| 0 <= b < i ==> #[trigger] data@[j * n + b] == self@[b * m + j],
                decreases n - i,
            {
                proof {
                    assert(i * m + j < n * m) by (nonlinear_arith)
                        requires i < n && j < m && i >= 0 && j >= 0 && m >= 0;
                }
                let v = src[i * m + j];
                data.push(v);
                proof {
                    assert(j * n + i + 1 <= m * n) by (nonlinear_arith)
                        requires j < m && i < n && i >= 0 && j >= 0 && n >= 0;
                    assert forall|a: int, b: int|
                        0 <= a < j && 0 <= b < n implies #[trigger] data@[a * n + b] == self@[b * m + a] by {
                        assert(a * n + b < j * n + i) by (nonlinear_arith)
                            requires a < j && b < n && a >= 0 && b >= 0 && n >= 0 && i >= 0;
                    }
                }
                i = i + 1;
            }
            j = j + 1;
            proof {
                assert(j * n == (j - 1) * n + n) by (nonlinear_arith);
            }
        }
        proof {
            assert(data@.len() == m * n) by (nonlinear_arith)
                requires data@.len() == m * n + 0;
            lemma_products_ok_2(seq![m, n]);
            assert(dims_product(seq![m, n]) == m * n);
        }
        NdArray::new(Shape::d2(m, n), Storage::from_vec(data))
    }

    /// Alias for `transpose`.
    pub fn t(&self) -> (a: Self)
        requires
            self.wf(),
            self.dims_spec().len() == 2,
        ensures
            a.wf(),
            a.dims_spec() =~= seq![self.dims_spec()[1], self.dims_spec()[0]],
            a@.len() == self@.len(),
            forall|r: int, c: int|
                0 <= r < self.dims_spec()[1] && 0 <= c < self.dims_spec()[0]
                    ==> #[trigger] a@[r * self.dims_spec()[0] + c] == self@[c * self.dims_spec()[1] + r],
    {
        self.transpose()
    }

    /// The `k`-th diagonal of a two-dimensional array as a one-dimensional
    /// array: positive `k` moves right, negative `k` moves down.
    pub fn diagonal(&self, k: isize) -> (a: Self)
        requires
            self.wf(),
            self.dims_spec().len() == 2,
            k > isize::MIN,
        ensures
            a.wf(),
            a.dims_spec() =~= seq![a@.len() as usize],
            ({
                let n = self.dims_spec()[0] as int;
                let m = self.dims_spec()[1] as int;
                let r0: int = if k >= 0 { 0 } else { -(k as int) };
                let c0: int = if k >= 0 { k as int } else { 0 };
                if r0 >= n || c0 >= m {
                    a@.len() == 0
                } else {
                    let len = if n - r0 <= m - c0 { n - r0 } else { m - c0 };
                    a@.len() == len
                        && forall|i: int| 0 <= i < len ==> #[trigger] a@[i] == self@[(r0 + i) * m + (c0 + i)]
                }
            }),
    {
        let n = match self.shape().dim(0) {
            Some(d) => d,
            None => 0,
        };
        let m = match self.shape().dim(1) {
            Some(d) => d,
            None => 0,
        };
        proof {
            assert(self.dims_spec() =~= seq![n, m]);
            self.lemma_wf_facts();
            assert(self.dims_spec().skip(0) =~= self.dims_spec());
            assert(dims_product(self.dims_spec().skip(0)) <= usize::MAX);
            lemma_product_pair(self.dims_spec());
        }
        let (row_start, col_start) = if k >= 0 {
            (0usize, k as usize)
        } else {
            ((-k) as usize, 0usize)
        };
        if row_start >= n || col_start >= m {
            proof {
                lemma_products_ok_1(seq![0usize]);
            }
            return NdArray::new(Shape::d1(0), Storage::from_vec(Vec::new()));
        }
        let avail_rows = n - row_start;
        let avail_cols = m - col_start;
        let diag_len = if avail_rows <= avail_cols { avail_rows } else { avail_cols };
        let src = self.as_slice();
        let mut data: Vec<T> = Vec::new();
        let mut i: usize = 0;
        while i < diag_len
            invariant
                self.wf(),
                self.dims_spec() =~= seq![n, m],
                self@.len() == n * m,
                n * m <= usize::MAX,
                src@ == self@,
                row_start + diag_len <= n,
                col_start + diag_len <= m,
                i <= diag_len,
                data@.len() == i,
                forall|t: int| 0 <= t < i
                    ==> #[trigger] data@[t] == self@[(row_start + t) * m + (col_start + t)],
            decreases diag_len - i,
        {
            proof {
                assert((row_start + i) * m + (col_start + i) < n * m) by (nonlinear_arith)
                    requires
                        row_start + i < n,
                        col_start + i < m,
                        row_start + i >= 0,
                        col_start + i >= 0,
                        m >= 0;
                assert((row_start + i) * m <= (row_start + i) * m + (col_start + i));
            }
            let v = src[(row_start + i) * m + (col_start + i)];
            data.push(v);
            i = i + 1;
        }
        proof {
            lemma_products_ok_1(seq![diag_len]);
        }
        NdArray::new(Shape::d1(diag_len), Storage::from_vec(data))
    }
}

impl NdArray<i64> {
    /// An array of the given shape with every entry one.
    pub fn ones(shape: Shape) -> (a: Self)
        requires
            products_ok(shape@),
        ensures
            a.wf(),
            a.dims_spec() == shape@,
            a@.len() == dims_product(shape@),
            forall|i: int| 0 <= i < a@.len() ==> a@[i] == 1i64,
    {
        Self::filled(shape, 1)
    }

    /// An `n` by `m` matrix (`m` defaulting to `n`) whose `k`-th diagonal is
    /// one and every other entry zero.
    pub fn eye(n: usize, m: Option<usize>, k: isize) -> (a: Self)
        requires
            k > isize::MIN,
            n * (match m { Some(v) => v, None => n }) <= usize::MAX,
        ensures
            ({
                let cols = (match m { Some(v) => v, None => n }) as int;
                &&& a.wf()
                &&& a.dims_spec() =~= seq![n, (match m { Some(v) => v, None => n })]
                &&& a@.len() == n * cols
                &&& forall|i: int, j: int| 0 <= i < n && 0 <= j < cols
                    ==> #[trigger] a@[i * cols + j] == (if j - i == k as int { 1i64 } else { 0i64 })
            }),
    {
        let m = match m {
            Some(v) => v,
            None => n,
        };
        let mut data: Vec<i64> = Vec::new();
        let mut i: usize = 0;
        while i < n
            invariant
                n * m <= usize::MAX,
                i <= n,
                data@.len() == i * m,
                forall|a: int, b: int| 0 <= a < i && 0 <= b < m
                    ==> #[trigger] data@[a * m + b] == (if b - a == k as int { 1i64 } else { 0i64 }),
            decreases n - i,
        {
            let mut j: usize = 0;
            while j < m
                invariant
                    n * m <= usize::MAX,
                    i < n,
                    j <= m,
                    data@.len() == i * m + j,
                    forall|a: int, b: int| 0 <= a < i && 0 <= b < m
                        ==> #[trigger] data@[a * m + b] == (if b - a == k as int { 1i64 } else { 0i64 }),
                    forall|b: int| 0 <= b < j
                        ==> #[trigger] data@[i * m + b] == (if b - i == k as int { 1i64 } else { 0i64 }),
                decreases m - j,
            {
                let on = (j as i128) - (i as i128) == (k as i128);
                data.push(if on { 1 } else { 0 });
                proof {
                    assert(i * m + j + 1 <= n * m) by (nonlinear_arith)
                        requires i < n && j < m && i >= 0 && j >= 0 && m >= 0;
                    assert forall|a: int, b: int|
                        0 <= a < i && 0 <= b < m implies #[trigger] data@[a * m + b]
                            == (if b - a == k as int { 1i64 } else { 0i64 }) by {
                        assert(a * m + b < i * m + j) by (nonlinear_arith)
                            requires a < i && b < m && a >= 0 && b >= 0 && m >= 0 && j >= 0;
                    }
                }
                j = j + 1;
            }
            i = i + 1;
            proof {
                assert(i * m == (i - 1) * m + m) by (nonlinear_arith);
            }
        }
        proof {
            lemma_products_ok_2(seq![n, m]);
            assert(seq![n, m][0] * seq![n, m][1] == n * m);
        }
        NdArray::new(Shape::d2(n, m), Storage::from_vec(data))
    }

    /// The rows of a two-dimensional array as separate coordinate vectors.
    pub fn rows(&self) -> (r: Vec<Vec<i64>>)
        requires
            self.wf(),
            self.dims_spec().len() == 2,
        ensures
            r@.len() == self.dims_spec()[0],
            forall|i: int| 0 <= i < r@.len() ==> (#[trigger] r@[i])@.len() == self.dims_spec()[1],
            forall|i: int, j: int| 0 <= i < r@.len() && 0 <= j < self.dims_spec()[1]
                ==> #[trigger] r@[i]@[j] == self@[i * self.dims_spec()[1] + j],
    {
        let n = match self.shape().dim(0) {
            Some(d) => d,
            None => 0,
        };
        let m = match self.shape().dim(1) {
            Some(d) => d,
            None => 0,
        };
        proof {
            assert(self.dims_spec() =~= seq![n, m]);
            self.lemma_wf_facts();
            assert(self.dims_spec().skip(0) =~= self.dims_spec());
            assert(dims_product(self.dims_spec().skip(0)) <= usize::MAX);
            lemma_product_pair(self.dims_spec());
        }
        let src = self.as_slice();
        let mut out: Vec<Vec<i64>> = Vec::new();
        let mut i: usize = 0;
        while i < n
            invariant
                self.wf(),
                self.dims_spec() =~= seq![n, m],
                self@.len() == n * m,
                n * m <= usize::MAX,
                src@ == self@,
                i <= n,
                out@.len() == i,
                forall|a: int| 0 <= a < i ==> (#[trigger] out@[a])@.len() == m,
                forall|a: int, b: int| 0 <= a < i && 0 <= b < m
                    ==> #[trigger] out@[a]@[b] == self@[a * m + b],
            decreases n - i,
        {
            let mut row: Vec<i64> = Vec::new();
            let mut j: usize = 0;
            while j < m
                invariant
                    self.wf(),
                    self@.len() == n * m,
                    n * m <= usize::MAX,
                    src@ == self@,
                    i < n,
                    j <= m,
                    row@.len() == j,
                    forall|b: int| 0 <= b < j ==> #[trigger] row@[b] == self@[i * m + b],
                decreases m - j,
            {
                proof {
                    assert(i * m + j < n * m) by (nonlinear_arith)
                        requires i < n && j < m && i >= 0 && j >= 0 && m >= 0;
                    assert(i * m <= i * m + j);
                }
                row.push(src[i * m + j]);
                j = j + 1;
            }
            out.push(row);
            i = i + 1;
        }
        out
    }
}

} // verus!
