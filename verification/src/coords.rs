//! Toroidal coordinate arithmetic: the one authoritative mapping between
//! wrapped (x, y) coordinates and row-major linear indices.

use vstd::prelude::*;
use vstd::arithmetic::div_mod::{
    lemma_fundamental_div_mod, lemma_fundamental_div_mod_converse, lemma_mod_bound,
    lemma_add_mod_noop_right, lemma_mod_add_multiples_vanish, lemma_small_mod,
};

verus! {

/// Wraps an arbitrary integer into `[0, m)`, treating the axis as periodic
/// with period `m`. In spec arithmetic `%` is Euclidean, so for `m > 0` the
/// remainder itself is the wrapped value.
pub open spec fn wrap(v: int, m: int) -> int {
    v % m
}

/// The wrapped value lies in `[0, m)`.
pub proof fn lemma_wrap_bound(v: int, m: int)
    requires
        0 < m,
    ensures
        0 <= wrap(v, m) < m,
{
    lemma_mod_bound(v, m);
}

/// Wrapping is idempotent: a value already in `[0, m)` is unchanged.
pub proof fn lemma_wrap_small(v: int, m: int)
    requires
        0 <= v < m,
    ensures
        wrap(v, m) == v,
{
    lemma_small_mod(v as nat, m as nat);
}

/// Periodicity: shifting by a whole period does not change the wrapped value.
pub proof fn lemma_wrap_period(v: int, m: int)
    requires
        0 < m,
    ensures
        wrap(v + m, m) == wrap(v, m),
{
    lemma_mod_add_multiples_vanish(v, m);
}

/// Wrapping a sum may wrap either summand first.
pub proof fn lemma_wrap_add(a: int, b: int, m: int)
    requires
        0 < m,
    ensures
        wrap(wrap(a, m) + b, m) == wrap(a + b, m),
{
    lemma_add_mod_noop_right(b, a, m);
}

/// Wrapping a difference may wrap the minuend first.
pub proof fn lemma_wrap_sub(a: int, b: int, m: int)
    requires
        0 < m,
    ensures
        wrap(wrap(a, m) - b, m) == wrap(a - b, m),
{
    lemma_add_mod_noop_right(-b, a, m);
}

/// Computes the wrapped coordinate. The double-modulo form
/// `((v % m) + m) % m` of the mathematical definition is realised here by
/// `checked_rem_euclid`, which never fails for a positive modulus.
pub fn wrap_coord(v: i32, m: i32) -> (r: i32)
    requires
        1 <= m,
    ensures
        r == wrap(v as int, m as int),
        0 <= r < m,
{
    proof {
        lemma_mod_bound(v as int, m as int);
    }
    match v.checked_rem_euclid(m) {
        Some(r) => r,
        None => {
            proof {
                assert(false);
            }
            0
        },
    }
}

/// Wraps a doubly wide intermediate value into `[0, m)`; used where a sum of
/// two machine-word coordinates must be wrapped without overflowing.
pub fn wrap_coord_wide(v: i64, m: i64) -> (r: i64)
    requires
        1 <= m,
    ensures
        r == wrap(v as int, m as int),
        0 <= r < m,
{
    proof {
        lemma_mod_bound(v as int, m as int);
    }
    match v.checked_rem_euclid(m) {
        Some(r) => r,
        None => {
            proof {
                assert(false);
            }
            0
        },
    }
}

/// Row-major index of an in-range coordinate pair.
pub open spec fn rowmajor(x: int, y: int, w: int) -> int {
    y * w + x
}

/// A row-major index decomposes uniquely into its column and row.
pub proof fn lemma_rowmajor_inverse(x: int, y: int, w: int)
    requires
        0 < w,
        0 <= x < w,
        0 <= y,
    ensures
        rowmajor(x, y, w) % w == x,
        rowmajor(x, y, w) / w == y,
        0 <= rowmajor(x, y, w),
{
    lemma_fundamental_div_mod_converse(y * w + x, w, y, x);
    assert(0 <= y * w + x) by (nonlinear_arith)
        requires
            0 < w,
            0 <= x,
            0 <= y,
    ;
}

/// In-range coordinates index strictly inside a `w * h` buffer.
pub proof fn lemma_rowmajor_in_range(x: int, y: int, w: int, h: int)
    requires
        0 < w,
        0 < h,
        0 <= x < w,
        0 <= y < h,
    ensures
        0 <= rowmajor(x, y, w) < w * h,
{
    assert(0 <= y * w + x < w * h) by (nonlinear_arith)
        requires
            0 < w,
            0 < h,
            0 <= x < w,
            0 <= y < h,
    ;
}

/// Distinct in-range coordinate pairs have distinct row-major indices.
pub proof fn lemma_rowmajor_injective(x1: int, y1: int, x2: int, y2: int, w: int)
    requires
        0 < w,
        0 <= x1 < w,
        0 <= x2 < w,
        0 <= y1,
        0 <= y2,
        (x1, y1) != (x2, y2),
    ensures
        rowmajor(x1, y1, w) != rowmajor(x2, y2, w),
{
    lemma_rowmajor_inverse(x1, y1, w);
    lemma_rowmajor_inverse(x2, y2, w);
}

/// Splits an in-range index back into `(x, y)`.
pub proof fn lemma_index_split(idx: int, w: int, h: int)
    requires
        0 < w,
        0 < h,
        0 <= idx < w * h,
    ensures
        0 <= idx % w < w,
        0 <= idx / w < h,
        rowmajor(idx % w, idx / w, w) == idx,
{
    lemma_fundamental_div_mod(idx, w);
    lemma_mod_bound(idx, w);
    assert((idx / w) * w == w * (idx / w)) by (nonlinear_arith);
    assert(0 <= idx / w < h) by (nonlinear_arith)
        requires
            0 < w,
            0 < h,
            0 <= idx < w * h,
            idx == w * (idx / w) + idx % w,
            0 <= idx % w < w,
    ;
}

} // verus!
