//! Distance metrics over fixed-point vector coordinates.
//!
//! Embedding coordinates are 64-bit integers in fixed-point form: one
//! unit is a millionth, so `1.0` is stored as `1_000_000`.  Every metric
//! is specified exactly over the mathematical sums of the coordinates;
//! the square roots are integer square roots, and the cosine distance is
//! scaled by the same fixed-point unit and clamped into `[0, 2]` units.

use vstd::prelude::*;
use vstd::arithmetic::mul::{lemma_mul_upper_bound, lemma_mul_strict_upper_bound};

verus! {

/// The largest coordinate magnitude a vector may carry (one unit is a
/// millionth, so this is 1048.576 in real terms).
pub const COORD_LIMIT: i64 = 1048576;

/// The largest number of dimensions a vector may have.
pub const DIM_LIMIT: usize = 65536;

/// The fixed-point unit: the integer standing for 1.0.
pub const FIXED_ONE: i64 = 1000000;

/// The distance metric of a vector collection.
#[derive(Debug, Clone, Copy, PartialEq, Eq, Structural)]
pub enum Distance {
    Cosine,
    Euclidean,
    DotProduct,
    Manhattan,
}

impl Distance {
    /// The name of the metric.
    pub fn name(&self) -> (r: &'static str)
        ensures
            self is Cosine ==> r@ == "cosine"@,
            self is Euclidean ==> r@ == "euclidean"@,
            self is DotProduct ==> r@ == "dot_product"@,
            self is Manhattan ==> r@ == "manhattan"@,
    {
        match self {
            Distance::Cosine => "cosine",
            Distance::Euclidean => "euclidean",
            Distance::DotProduct => "dot_product",
            Distance::Manhattan => "manhattan",
        }
    }
}

/// Whether every coordinate is within the fixed-point range and the
/// dimension within bounds.
pub open spec fn vec_ok(a: Seq<i64>) -> bool {
    &&& a.len() <= DIM_LIMIT
    &&& forall|i: int| 0 <= i < a.len() ==> -COORD_LIMIT <= #[trigger] a[i] <= COORD_LIMIT
}

/// The dot product of the first `n` coordinates.
pub open spec fn dot_n(a: Seq<i64>, b: Seq<i64>, n: int) -> int
    decreases n,
{
    if n <= 0 {
        0
    } else {
        dot_n(a, b, n - 1) + a[n - 1] * b[n - 1]
    }
}

/// The sum of squared differences of the first `n` coordinates.
pub open spec fn sum_sq_diff_n(a: Seq<i64>, b: Seq<i64>, n: int) -> int
    decreases n,
{
    if n <= 0 {
        0
    } else {
        sum_sq_diff_n(a, b, n - 1) + (a[n - 1] - b[n - 1]) * (a[n - 1] - b[n - 1])
    }
}

/// The sum of absolute differences of the first `n` coordinates.
pub open spec fn sum_abs_diff_n(a: Seq<i64>, b: Seq<i64>, n: int) -> int
    decreases n,
{
    if n <= 0 {
        0
    } else {
        sum_abs_diff_n(a, b, n - 1) + (if a[n - 1] >= b[n - 1] {
            a[n - 1] - b[n - 1]
        } else {
            b[n - 1] - a[n - 1]
        })
    }
}

/// The sum of squares of the first `n` coordinates.
pub open spec fn sum_sq_n(a: Seq<i64>, n: int) -> int
    decreases n,
{
    if n <= 0 {
        0
    } else {
        sum_sq_n(a, n - 1) + a[n - 1] * a[n - 1]
    }
}

/// The integer square root: the greatest `r` with `r * r <= n`.
pub open spec fn is_isqrt(n: int, r: int) -> bool {
    &&& 0 <= r
    &&& r * r <= n
    &&& n < (r + 1) * (r + 1)
}

proof fn lemma_step_bounds(a: Seq<i64>, b: Seq<i64>, n: int)
    requires
        vec_ok(a),
        vec_ok(b),
        a.len() == b.len(),
        0 <= n <= a.len(),
    ensures
        -n * 1099511627776 <= dot_n(a, b, n) <= n * 1099511627776,
        0 <= sum_sq_diff_n(a, b, n) <= n * 4398046511104,
        0 <= sum_abs_diff_n(a, b, n) <= n * 2097152,
        0 <= sum_sq_n(a, n) <= n * 1099511627776,
    decreases n,
{
    if n > 0 {
        lemma_step_bounds(a, b, n - 1);
        let x = a[n - 1] as int;
        let y = b[n - 1] as int;
        assert(-(COORD_LIMIT as int * COORD_LIMIT) <= x * y <= COORD_LIMIT as int
            * COORD_LIMIT) by (nonlinear_arith)
            requires
                -COORD_LIMIT <= x <= COORD_LIMIT,
                -COORD_LIMIT <= y <= COORD_LIMIT,
        ;
        assert(0 <= (x - y) * (x - y) <= 4 * COORD_LIMIT as int * COORD_LIMIT)
            by (nonlinear_arith)
            requires
                -COORD_LIMIT <= x <= COORD_LIMIT,
                -COORD_LIMIT <= y <= COORD_LIMIT,
        ;
        assert(0 <= x * x <= COORD_LIMIT as int * COORD_LIMIT) by (nonlinear_arith)
            requires
                -COORD_LIMIT <= x <= COORD_LIMIT,
        ;
        assert(dot_n(a, b, n) == dot_n(a, b, n - 1) + x * y);
        assert(sum_sq_diff_n(a, b, n) == sum_sq_diff_n(a, b, n - 1) + (x - y) * (x - y));
        assert(sum_sq_n(a, n) == sum_sq_n(a, n - 1) + x * x);
        assert(COORD_LIMIT as int * COORD_LIMIT == 1099511627776) by (nonlinear_arith);
        assert(4 * (COORD_LIMIT as int) * COORD_LIMIT == 4398046511104)
            by (nonlinear_arith);
    }
}

/// The dot product.
pub fn dot_product(a: &Vec<i64>, b: &Vec<i64>) -> (r: i64)
    requires
        vec_ok(a@),
        vec_ok(b@),
        a@.len() == b@.len(),
    ensures
        r == dot_n(a@, b@, a@.len() as int),
{
    let n = a.len();
    let mut acc: i64 = 0;
    let mut k: usize = 0;
    while k < n
        invariant
            vec_ok(a@),
            vec_ok(b@),
            a@.len() == b@.len(),
            n == a@.len(),
            k <= n,
            acc == dot_n(a@, b@, k as int),
            -(k as int) * 1099511627776 <= acc <= (k as int) * 1099511627776,
        decreases n - k,
    {
        proof {
            lemma_step_bounds(a@, b@, k as int + 1);
            let x = a@[k as int] as int;
            let y = b@[k as int] as int;
            assert(-1099511627776 <= x * y <= 1099511627776) by (nonlinear_arith)
                requires
                    -COORD_LIMIT <= x <= COORD_LIMIT,
                    -COORD_LIMIT <= y <= COORD_LIMIT,
            ;
        }
        acc = acc + a[k] * b[k];
        k = k + 1;
    }
    acc
}

/// The squared Euclidean distance.
pub fn euclidean_distance_squared(a: &Vec<i64>, b: &Vec<i64>) -> (r: i64)
    requires
        vec_ok(a@),
        vec_ok(b@),
        a@.len() == b@.len(),
    ensures
        r == sum_sq_diff_n(a@, b@, a@.len() as int),
{
    let n = a.len();
    let mut acc: i64 = 0;
    let mut k: usize = 0;
    while k < n
        invariant
            vec_ok(a@),
            vec_ok(b@),
            a@.len() == b@.len(),
            n == a@.len(),
            k <= n,
            acc == sum_sq_diff_n(a@, b@, k as int),
            0 <= acc <= (k as int) * 4398046511104,
        decreases n - k,
    {
        proof {
            lemma_step_bounds(a@, b@, k as int + 1);
            let x = a@[k as int] as int;
            let y = b@[k as int] as int;
            assert(0 <= (x - y) * (x - y) <= 4398046511104) by (nonlinear_arith)
                requires
                    -COORD_LIMIT <= x <= COORD_LIMIT,
                    -COORD_LIMIT <= y <= COORD_LIMIT,
            ;
        }
        let d = a[k] - b[k];
        acc = acc + d * d;
        k = k + 1;
    }
    acc
}

/// The Manhattan distance.
pub fn manhattan_distance(a: &Vec<i64>, b: &Vec<i64>) -> (r: i64)
    requires
        vec_ok(a@),
        vec_ok(b@),
        a@.len() == b@.len(),
    ensures
        r == sum_abs_diff_n(a@, b@, a@.len() as int),
{
    let n = a.len();
    let mut acc: i64 = 0;
    let mut k: usize = 0;
    while k < n
        invariant
            vec_ok(a@),
            vec_ok(b@),
            a@.len() == b@.len(),
            n == a@.len(),
            k <= n,
            acc == sum_abs_diff_n(a@, b@, k as int),
            0 <= acc <= (k as int) * 2097152,
        decreases n - k,
    {
        proof {
            lemma_step_bounds(a@, b@, k as int + 1);
        }
        let d = if a[k] >= b[k] {
            a[k] - b[k]
        } else {
            b[k] - a[k]
        };
        acc = acc + d;
        k = k + 1;
    }
    acc
}

/// The integer square root of a non-negative value.
pub fn isqrt(n: i64) -> (r: i64)
    requires
        n >= 0,
    ensures
        is_isqrt(n as int, r as int),
        0 <= r <= 3037000499,
{
    let mut lo: i64 = 0;
    // 3037000500 squared exceeds i64::MAX, so the root is below it.
    let mut hi: i64 = if n < 3037000499 {
        n + 1
    } else {
        3037000500
    };
    proof {
        assert((3037000500i64 as int) * (3037000500i64 as int) > i64::MAX as int)
            by (nonlinear_arith);
        assert(n < 3037000499 ==> (n as int + 1) * (n as int + 1) > (n as int))
            by (nonlinear_arith);
    }
    while lo + 1 < hi
        invariant
            0 <= lo < hi,
            hi <= 3037000500,
            (lo as int) * (lo as int) <= n as int,
            (n as int) < (hi as int) * (hi as int),
        decreases hi - lo,
    {
        let mid = lo + (hi - lo) / 2;
        proof {
            assert(lo < mid < hi);
        }
        if let Option::Some(sq) = mid.checked_mul(mid) {
            if sq <= n {
                lo = mid;
            } else {
                hi = mid;
            }
        } else {
            proof {
                assert((mid as int) * (mid as int) > i64::MAX as int || (mid as int) * (
                mid as int) < i64::MIN as int);
                assert((mid as int) * (mid as int) >= 0) by (nonlinear_arith);
                assert(n as int <= i64::MAX as int);
            }
            hi = mid;
        }
    }
    lo
}

/// The Euclidean distance (integer square root of the squared sum).
pub fn euclidean_distance(a: &Vec<i64>, b: &Vec<i64>) -> (r: i64)
    requires
        vec_ok(a@),
        vec_ok(b@),
        a@.len() == b@.len(),
    ensures
        is_isqrt(sum_sq_diff_n(a@, b@, a@.len() as int), r as int),
{
    let s = euclidean_distance_squared(a, b);
    proof {
        lemma_step_bounds(a@, b@, a@.len() as int);
    }
    isqrt(s)
}

/// The negated dot product: lower means more similar, like the other
/// metrics.
pub fn dot_product_distance(a: &Vec<i64>, b: &Vec<i64>) -> (r: i64)
    requires
        vec_ok(a@),
        vec_ok(b@),
        a@.len() == b@.len(),
    ensures
        r == -dot_n(a@, b@, a@.len() as int),
{
    let d = dot_product(a, b);
    proof {
        lemma_step_bounds(a@, b@, a@.len() as int);
    }
    -d
}

/// The L2 norm of a vector (integer square root of the squared sum).
pub fn norm(v: &Vec<i64>) -> (r: i64)
    requires
        vec_ok(v@),
    ensures
        is_isqrt(sum_sq_n(v@, v@.len() as int), r as int),
        0 <= r <= 3037000499,
{
    let n = v.len();
    let mut acc: i64 = 0;
    let mut k: usize = 0;
    while k < n
        invariant
            vec_ok(v@),
            n == v@.len(),
            k <= n,
            acc == sum_sq_n(v@, k as int),
            0 <= acc <= (k as int) * 1099511627776,
        decreases n - k,
    {
        proof {
            lemma_step_bounds(v@, v@, k as int + 1);
            let x = v@[k as int] as int;
            assert(0 <= x * x <= 1099511627776) by (nonlinear_arith)
                requires
                    -COORD_LIMIT <= x <= COORD_LIMIT,
            ;
        }
        acc = acc + v[k] * v[k];
        k = k + 1;
    }
    isqrt(acc)
}

/// The exact mathematical value of the scaled cosine distance: the
/// fixed-point unit minus the similarity, computed with truncating
/// division on magnitudes and clamped into zero to two units.
pub open spec fn spec_cosine(a: Seq<i64>, b: Seq<i64>) -> int {
    let d = dot_n(a, b, a.len() as int);
    let na = spec_isqrt_val(sum_sq_n(a, a.len() as int));
    let nb = spec_isqrt_val(sum_sq_n(b, b.len() as int));
    if na == 0 || nb == 0 {
        FIXED_ONE as int
    } else {
        let mag = if d >= 0 {
            d
        } else {
            -d
        };
        let q = (mag * FIXED_ONE) / (na * nb);
        let qc = if q > FIXED_ONE {
            FIXED_ONE as int
        } else {
            q
        };
        if d >= 0 {
            FIXED_ONE - qc
        } else {
            FIXED_ONE + qc
        }
    }
}

/// The unique integer square root of a non-negative value.
pub open spec fn spec_isqrt_val(n: int) -> int {
    choose|r: int| is_isqrt(n, r)
}

/// Square roots are unique, so the chosen root is the computed one.
pub proof fn lemma_isqrt_unique(n: int, r: int)
    requires
        is_isqrt(n, r),
    ensures
        spec_isqrt_val(n) == r,
{
    let c = spec_isqrt_val(n);
    assert(is_isqrt(n, c));
    assert(c == r) by (nonlinear_arith)
        requires
            0 <= r,
            r * r <= n,
            n < (r + 1) * (r + 1),
            0 <= c,
            c * c <= n,
            n < (c + 1) * (c + 1),
    ;
}

/// The cosine distance, in fixed-point units: zero for identical
/// directions, one unit when either vector is zero, up to two units for
/// opposite directions.
pub fn cosine_distance(a: &Vec<i64>, b: &Vec<i64>) -> (r: i64)
    requires
        vec_ok(a@),
        vec_ok(b@),
        a@.len() == b@.len(),
    ensures
        r == spec_cosine(a@, b@),
        0 <= r <= 2 * FIXED_ONE,
{
    let d = dot_product(a, b);
    let na = norm(a);
    let nb = norm(b);
    proof {
        lemma_isqrt_unique(sum_sq_n(a@, a@.len() as int), na as int);
        lemma_isqrt_unique(sum_sq_n(b@, b@.len() as int), nb as int);
        lemma_step_bounds(a@, b@, a@.len() as int);
    }
    if na == 0 || nb == 0 {
        return FIXED_ONE;
    }
    let mag: i64 = if d >= 0 {
        d
    } else {
        -d
    };
    proof {
        assert((mag as int) * (FIXED_ONE as int) <= 0x7fff_ffff_ffff_ffffi64 as int
            * (FIXED_ONE as int)) by (nonlinear_arith)
            requires
                0 <= mag <= 0x7fff_ffff_ffff_ffffi64,
        ;
        assert((na as int) * (nb as int) <= 3037000499i64 as int * 3037000499)
            by (nonlinear_arith)
            requires
                0 <= na <= 3037000499,
                0 <= nb <= 3037000499,
        ;
    }
    let prod: i128 = (mag as i128) * (FIXED_ONE as i128);
    let denom: i128 = (na as i128) * (nb as i128);
    proof {
        assert(denom > 0) by (nonlinear_arith)
            requires
                na > 0,
                nb > 0,
                denom == (na as int) * (nb as int),
        ;
        assert(prod >= 0) by (nonlinear_arith)
            requires
                mag >= 0,
                prod == (mag as int) * (FIXED_ONE as int),
        ;
        vstd::arithmetic::div_mod::lemma_div_pos_is_pos(prod as int, denom as int);
    }
    let q128: i128 = prod / denom;
    let q: i64 = if q128 > (FIXED_ONE as i128) {
        FIXED_ONE
    } else {
        q128 as i64
    };
    proof {
        assert(q128 >= 0);
    }
    if d >= 0 {
        FIXED_ONE - q
    } else {
        FIXED_ONE + q
    }
}

/// The cosine similarity in fixed-point units: one unit minus the
/// cosine distance.
pub fn cosine_similarity(a: &Vec<i64>, b: &Vec<i64>) -> (r: i64)
    requires
        vec_ok(a@),
        vec_ok(b@),
        a@.len() == b@.len(),
    ensures
        r == FIXED_ONE - spec_cosine(a@, b@),
{
    let d = cosine_distance(a, b);
    FIXED_ONE - d
}

/// The exact value of every metric.
pub open spec fn spec_distance(a: Seq<i64>, b: Seq<i64>, metric: Distance) -> int {
    match metric {
        Distance::Cosine => spec_cosine(a, b),
        Distance::Euclidean => spec_isqrt_val(sum_sq_diff_n(a, b, a.len() as int)),
        Distance::DotProduct => -dot_n(a, b, a.len() as int),
        Distance::Manhattan => sum_abs_diff_n(a, b, a.len() as int),
    }
}

/// The distance between two vectors under the given metric.
pub fn calculate_distance(a: &Vec<i64>, b: &Vec<i64>, metric: Distance) -> (r: i64)
    requires
        vec_ok(a@),
        vec_ok(b@),
        a@.len() == b@.len(),
    ensures
        r == spec_distance(a@, b@, metric),
{
    match metric {
        Distance::Cosine => cosine_distance(a, b),
        Distance::Euclidean => {
            let r = euclidean_distance(a, b);
            proof {
                lemma_isqrt_unique(sum_sq_diff_n(a@, b@, a@.len() as int), r as int);
            }
            r
        },
        Distance::DotProduct => dot_product_distance(a, b),
        Distance::Manhattan => manhattan_distance(a, b),
    }
}

/// A value clamped into the coordinate range.
pub open spec fn clamp_coord(x: int) -> int {
    if x > COORD_LIMIT {
        COORD_LIMIT as int
    } else if x < -COORD_LIMIT {
        -COORD_LIMIT as int
    } else {
        x
    }
}

/// One coordinate scaled toward unit norm: multiplied by the unit and
/// divided (toward zero) by the norm.
pub open spec fn spec_norm_scale(c: int, n0: int) -> int {
    if c >= 0 {
        (c * FIXED_ONE) / n0
    } else {
        -(((-c) * FIXED_ONE) / n0)
    }
}

/// What normalising yields: the zero vector unchanged, every other
/// vector with each coordinate scaled by the unit over the norm and
/// clamped into range.
pub open spec fn spec_normalize(v: Seq<i64>) -> Seq<i64> {
    let n0 = spec_isqrt_val(sum_sq_n(v, v.len() as int));
    if n0 <= 0 {
        v
    } else {
        Seq::new(v.len(), |i: int| clamp_coord(spec_norm_scale(v[i] as int, n0)) as i64)
    }
}

/// Scales a vector in place so that its norm is close to one unit;
/// leaves the zero vector unchanged.
pub fn normalize(v: &mut Vec<i64>)
    requires
        vec_ok(old(v)@),
    ensures
        vec_ok(final(v)@),
        final(v)@.len() == old(v)@.len(),
        final(v)@ == spec_normalize(old(v)@),
{
    let n0 = norm(v);
    proof {
        lemma_isqrt_unique(sum_sq_n(v@, v@.len() as int), n0 as int);
    }
    if n0 <= 0 {
        return;
    }
    let len = v.len();
    let mut k: usize = 0;
    while k < len
        invariant
            n0 > 0,
            n0 == spec_isqrt_val(sum_sq_n(old(v)@, old(v)@.len() as int)),
            len == v@.len(),
            k <= len,
            v@.len() == old(v)@.len(),
            forall|i: int| k <= i < len ==> v@[i] == old(v)@[i],
            vec_ok(old(v)@),
            forall|i: int|
                0 <= i < k ==> #[trigger] v@[i] == clamp_coord(
                    spec_norm_scale(old(v)@[i] as int, n0 as int),
                ) as i64,
        decreases len - k,
    {
        let c = v[k];
        proof {
            assert((if c >= 0 {
                c as int
            } else {
                -(c as int)
            }) * (FIXED_ONE as int) <= 1099511627776000000) by (nonlinear_arith)
                requires
                    -COORD_LIMIT <= c <= COORD_LIMIT,
            ;
        }
        let mag: i64 = if c >= 0 {
            c
        } else {
            -c
        };
        let q128: i128 = (mag as i128) * (FIXED_ONE as i128) / (n0 as i128);
        proof {
            vstd::arithmetic::div_mod::lemma_div_pos_is_pos(
                (mag as int) * (FIXED_ONE as int),
                n0 as int,
            );
            assert((mag as int) * (FIXED_ONE as int) >= 0) by (nonlinear_arith)
                requires
                    mag >= 0,
            ;
        }
        let scaled128: i128 = if c >= 0 {
            q128
        } else {
            -q128
        };
        let scaled: i64 = if scaled128 > (COORD_LIMIT as i128) {
            COORD_LIMIT
        } else if scaled128 < (-COORD_LIMIT as i128) {
            -COORD_LIMIT
        } else {
            scaled128 as i64
        };
        proof {
            assert(scaled as int == clamp_coord(spec_norm_scale(c as int, n0 as int)));
        }
        v.set(k, scaled);
        k = k + 1;
    }
    proof {
        assert(v@ =~= spec_normalize(old(v)@));
    }
}

/// A normalized copy of a vector.
pub fn normalized(v: &Vec<i64>) -> (r: Vec<i64>)
    requires
        vec_ok(v@),
    ensures
        vec_ok(r@),
        r@.len() == v@.len(),
        r@ == spec_normalize(v@),
{
    let mut out = vstd::slice::slice_to_vec(v.as_slice());
    normalize(&mut out);
    out
}

} // verus!
