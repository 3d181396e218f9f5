//! Small numeric helpers.

use vstd::prelude::*;
use crate::error::{ArgFault, ImgProcError};
use crate::util::Number;

verus! {

/// `x` held to the range from `min` to `max`: `min` where `x` is at most
/// `min`, else `max` where `x` is at least `max`, else `x`.
pub open spec fn clamp_spec<T: Number>(x: T, min: T, max: T) -> T {
    if x.at_most(min) {
        min
    } else if max.at_most(x) {
        max
    } else {
        x
    }
}

/// Clamps `x` to the range from `min` to `max`, inclusive.
pub fn clamp<T: Number>(x: T, min: T, max: T) -> (r: T)
    ensures
        r == clamp_spec(x, min, max),
{
    if x.not_above(min) {
        return min;
    }
    if max.not_above(x) {
        return max;
    }
    x
}

/// `max` where `x` is at least `max`, else `x`.
pub fn clamp_max<T: Number>(x: T, max: T) -> (r: T)
    ensures
        r == if max.at_most(x) {
            max
        } else {
            x
        },
{
    if max.not_above(x) {
        return max;
    }
    x
}

/// The sum of the first `k` products of row `i` of a matrix of `rows`
/// columns with a vector, taken from left to right and starting from zero.
pub open spec fn row_dot<T: Number>(mat: Seq<T>, vec: Seq<T>, rows: int, i: int, k: int) -> T
    decreases k,
{
    if k <= 0 {
        T::of_u8(0)
    } else {
        row_dot(mat, vec, rows, i, k - 1).plus(mat[rows * i + k - 1].times(vec[k - 1]))
    }
}

/// The product of a square matrix, given row by row, and a vector. The
/// matrix must have as many rows as the vector has entries, or the
/// dimensions are rejected.
pub fn vector_mul<T: Number>(mat: &[T], vec: &[T]) -> (r: Result<Vec<T>, ImgProcError>)
    requires
        vec@.len() > 0,
    ensures
        match r {
            Ok(out) => mat@.len() / vec@.len() == vec@.len() && out@.len() == vec@.len()
                && forall|i: int|
                0 <= i < vec@.len() ==> #[trigger] out@[i] == row_dot(
                    mat@,
                    vec@,
                    vec@.len() as int,
                    i,
                    vec@.len() as int,
                ),
            Err(e) => mat@.len() / vec@.len() != vec@.len() && e == ImgProcError::InvalidArgError(
                ArgFault::DimensionMismatch,
            ),
        },
{
    let rows: usize = vec.len();
    let total: usize = mat.len();
    let mat_cols: usize = total / rows;
    if mat_cols != rows {
        return Err(ImgProcError::InvalidArgError(ArgFault::DimensionMismatch));
    }
    proof {
        let (m, n) = (mat@.len() as int, rows as int);
        assert(n * n <= m) by (nonlinear_arith)
            requires
                n > 0,
                m / n == n,
                m >= 0,
        ;
    }
    let mut output: Vec<T> = Vec::with_capacity(rows);
    let mut i: usize = 0;
    while i < rows
        invariant
            rows == vec@.len(),
            rows * rows <= mat@.len(),
            mat@.len() <= usize::MAX,
            i <= rows,
            output@.len() == i,
            forall|k: int|
                0 <= k < i ==> #[trigger] output@[k] == row_dot(mat@, vec@, rows as int, k, rows as int),
        decreases rows - i,
    {
        let mut acc: T = T::from_u8(0);
        let mut j: usize = 0;
        while j < rows
            invariant
                rows == vec@.len(),
                rows * rows <= mat@.len(),
                mat@.len() <= usize::MAX,
                i < rows,
                j <= rows,
                acc == row_dot(mat@, vec@, rows as int, i as int, j as int),
            decreases rows - j,
        {
            assert(rows * i + j < rows * rows && 0 <= rows * i <= rows * rows) by (nonlinear_arith)
                requires
                    0 <= i < rows,
                    0 <= j < rows,
            ;
            acc = acc.sum_with(mat[rows * i + j].product_with(vec[j]));
            j += 1;
        }
        output.push(acc);
        i += 1;
    }
    Ok(output)
}

} // verus!
