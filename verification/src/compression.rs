//! Sparse-delta compression for vector storage.
//!
//! Most vectors near each other in the graph are near in space, so a
//! vector can be stored as the sparse difference from an anchor.  The
//! contracts here carry the two central guarantees: a delta-compressed
//! vector reconstructs within the sparsity threshold per component (or
//! within the quantisation scale where a component was kept), and no
//! delta is stored whose density exceeds the configured bound — such a
//! vector is stored as an anchor instead.

use vstd::prelude::*;
use crate::assoc::{assoc_get, assoc_unique, lemma_assoc_get_found, lemma_assoc_get_absent,
    lemma_assoc_get_push, lemma_assoc_none_no_key};
use crate::distance::{vec_ok, norm, sum_sq_n, is_isqrt, DIM_LIMIT, COORD_LIMIT};

verus! {

/// How vectors are stored.
#[derive(Debug, Clone, Copy, PartialEq, Eq, Structural)]
pub enum CompressionMode {
    NoCompression,
    Delta,
    QuantizedDelta,
}

/// Compression settings.  The sparsity threshold and the quantisation
/// scale are in fixed-point coordinate units; the density bound is a
/// percentage of the dimension count.
#[derive(Debug, Clone, Copy)]
pub struct CompressionConfig {
    pub mode: CompressionMode,
    pub sparsity_threshold: i64,
    pub max_density: u32,
    pub anchor_frequency: usize,
    pub quantization_bits: u8,
}

impl CompressionConfig {
    /// Whether the settings are usable.
    pub open spec fn wf(self) -> bool {
        &&& 0 <= self.sparsity_threshold <= COORD_LIMIT
        &&& self.max_density <= 100
        &&& self.anchor_frequency >= 1
    }

    /// Delta compression with a thousandth-unit threshold, at most 15%
    /// density, an anchor every eighth insertion.
    pub fn delta() -> (r: CompressionConfig)
        ensures
            r.wf(),
            r.mode is Delta,
    {
        CompressionConfig {
            mode: CompressionMode::Delta,
            sparsity_threshold: 1000,
            max_density: 15,
            anchor_frequency: 8,
            quantization_bits: 8,
        }
    }

    /// No compression.
    pub fn none() -> (r: CompressionConfig)
        ensures
            r.wf(),
            r.mode is NoCompression,
    {
        CompressionConfig {
            mode: CompressionMode::NoCompression,
            sparsity_threshold: 1000,
            max_density: 15,
            anchor_frequency: 8,
            quantization_bits: 8,
        }
    }

    /// Aggressive quantised compression.
    pub fn quantized() -> (r: CompressionConfig)
        ensures
            r.wf(),
            r.mode is QuantizedDelta,
    {
        CompressionConfig {
            mode: CompressionMode::QuantizedDelta,
            sparsity_threshold: 10000,
            max_density: 10,
            anchor_frequency: 16,
            quantization_bits: 8,
        }
    }

    /// The same settings with another sparsity threshold.
    pub fn with_threshold(self, threshold: i64) -> (r: CompressionConfig)
        requires
            0 <= threshold <= COORD_LIMIT,
        ensures
            r.sparsity_threshold == threshold,
            self.wf() ==> r.wf(),
    {
        CompressionConfig { sparsity_threshold: threshold, ..self }
    }

    /// The same settings with another anchor frequency (at least one).
    pub fn with_anchor_frequency(self, freq: usize) -> (r: CompressionConfig)
        ensures
            r.anchor_frequency == if freq >= 1 {
                freq
            } else {
                1
            },
            self.wf() ==> r.wf(),
    {
        let f = if freq >= 1 {
            freq
        } else {
            1
        };
        CompressionConfig { anchor_frequency: f, ..self }
    }
}

/// A stored vector: a full anchor, a sparse delta against a base, or a
/// quantised sparse delta with its scale.  Delta forms carry the
/// original vector's norm.
#[derive(Debug)]
pub enum CompressedVector {
    Full(Vec<i64>),
    Delta { base_id: u64, deltas: Vec<(u16, i64)>, norm: i64 },
    QuantizedDelta { base_id: u64, deltas: Vec<(u16, i8)>, scale: i64, norm: i64 },
}

impl CompressedVector {
    /// Whether this entry is an anchor.
    pub fn is_anchor(&self) -> (r: bool)
        ensures
            r == (self is Full),
    {
        match self {
            CompressedVector::Full(_) => true,
            _ => false,
        }
    }

    /// The base an entry depends on, if it is a delta form.
    pub fn base_id(&self) -> (r: Option<u64>)
        ensures
            match self {
                CompressedVector::Full(_) => r is None,
                CompressedVector::Delta { base_id, .. } => r == Option::Some(*base_id),
                CompressedVector::QuantizedDelta { base_id, .. } => r == Option::Some(
                    *base_id,
                ),
            },
    {
        match self {
            CompressedVector::Full(_) => Option::None,
            CompressedVector::Delta { base_id, .. } => Option::Some(*base_id),
            CompressedVector::QuantizedDelta { base_id, .. } => Option::Some(*base_id),
        }
    }

    /// The stored norm; for an anchor, the norm of the full vector.
    pub fn norm(&self) -> (r: i64)
        requires
            self matches CompressedVector::Full(v) ==> vec_ok(v@),
    {
        match self {
            CompressedVector::Full(v) => norm(v),
            CompressedVector::Delta { norm, .. } => *norm,
            CompressedVector::QuantizedDelta { norm, .. } => *norm,
        }
    }

    /// The approximate storage cost in bytes, in the classical packed
    /// form: four bytes per full component, six per sparse delta, three
    /// per quantised delta, plus a small overhead each.
    pub fn storage_bytes(&self) -> (r: usize)
        requires
            (self matches CompressedVector::Full(v) ==> v@.len() <= DIM_LIMIT),
            (self matches CompressedVector::Delta { deltas, .. } ==> deltas@.len()
                <= DIM_LIMIT),
            (self matches CompressedVector::QuantizedDelta { deltas, .. } ==> deltas@.len()
                <= DIM_LIMIT),
        ensures
            match self {
                CompressedVector::Full(v) => r == v@.len() * 4 + 8,
                CompressedVector::Delta { deltas, .. } => r == deltas@.len() * 6 + 16,
                CompressedVector::QuantizedDelta { deltas, .. } => r == deltas@.len() * 3
                    + 20,
            },
    {
        match self {
            CompressedVector::Full(v) => v.len() * 4 + 8,
            CompressedVector::Delta { deltas, .. } => deltas.len() * 6 + 16,
            CompressedVector::QuantizedDelta { deltas, .. } => deltas.len() * 3 + 20,
        }
    }
}

/// The sparse deltas of `v` against `b` over the first `n` components:
/// the pairs `(i, v[i] - b[i])` whose difference exceeds the threshold
/// in magnitude.
pub open spec fn spec_sparse_deltas(v: Seq<i64>, b: Seq<i64>, thr: int, n: int) -> Seq<
    (u16, i64),
>
    decreases n,
{
    if n <= 0 {
        Seq::empty()
    } else {
        let rest = spec_sparse_deltas(v, b, thr, n - 1);
        let d = v[n - 1] - b[n - 1];
        if d > thr || d < -thr {
            rest.push(((n - 1) as u16, d as i64))
        } else {
            rest
        }
    }
}

/// Whether a value fits a 64-bit signed integer.
pub open spec fn fits_i64(x: int) -> bool {
    i64::MIN <= x <= i64::MAX
}

/// `base` with sparse deltas added in; an entry whose index is out of
/// range or whose sum would overflow is skipped.
pub open spec fn spec_apply_deltas(base: Seq<i64>, ds: Seq<(u16, i64)>) -> Seq<i64>
    decreases ds.len(),
{
    if ds.len() == 0 {
        base
    } else {
        let prev = spec_apply_deltas(base, ds.drop_last());
        let p = ds.last();
        if (p.0 as int) < prev.len() && fits_i64(prev[p.0 as int] + p.1) {
            prev.update(p.0 as int, (prev[p.0 as int] + p.1) as i64)
        } else {
            prev
        }
    }
}

/// `base` with quantised deltas scaled by `scale` added in; an entry
/// whose index is out of range or whose sum would overflow is skipped.
pub open spec fn spec_apply_quantized(base: Seq<i64>, ds: Seq<(u16, i8)>, scale: int)
    -> Seq<i64>
    decreases ds.len(),
{
    if ds.len() == 0 {
        base
    } else {
        let prev = spec_apply_quantized(base, ds.drop_last(), scale);
        let p = ds.last();
        if (p.0 as int) < prev.len() && fits_i64(p.1 * scale) && fits_i64(
            prev[p.0 as int] + p.1 * scale,
        ) {
            prev.update(p.0 as int, (prev[p.0 as int] + p.1 * scale) as i64)
        } else {
            prev
        }
    }
}

/// The delta encoder and decoder.
pub struct DeltaCompressor {
    config: CompressionConfig,
}

impl DeltaCompressor {
    /// The settings the compressor was made with.
    pub closed spec fn spec_config(self) -> CompressionConfig {
        self.config
    }

    /// A compressor over the given settings.
    pub fn new(config: CompressionConfig) -> (r: DeltaCompressor)
        ensures
            r.spec_config() == config,
    {
        DeltaCompressor { config }
    }
}


/// The larger of two values.
pub open spec fn max2(a: int, b: int) -> int {
    if a >= b {
        a
    } else {
        b
    }
}

/// What applying the sparse deltas of `v` against `b` yields: `v` where
/// the difference was kept, `b` where it was dropped — so never further
/// than the threshold from `v`.
pub proof fn lemma_sparse_apply(v: Seq<i64>, b: Seq<i64>, thr: int, n: int)
    requires
        vec_ok(v),
        vec_ok(b),
        v.len() == b.len(),
        0 <= n <= v.len(),
        0 <= thr,
    ensures
        spec_apply_deltas(b, spec_sparse_deltas(v, b, thr, n)).len() == b.len(),
        forall|i: int|
            0 <= i < b.len() ==> #[trigger] spec_apply_deltas(
                b,
                spec_sparse_deltas(v, b, thr, n),
            )[i] == (if i < n && (v[i] - b[i] > thr || v[i] - b[i] < -thr) {
                v[i]
            } else {
                b[i]
            }),
    decreases n,
{
    if n > 0 {
        lemma_sparse_apply(v, b, thr, n - 1);
        let prev = spec_sparse_deltas(v, b, thr, n - 1);
        let d = v[n - 1] - b[n - 1];
        if d > thr || d < -thr {
            let p = (((n - 1) as u16, d as i64));
            let cur = prev.push(p);
            assert(cur.drop_last() =~= prev);
            assert(cur.last() == p);
            assert(spec_apply_deltas(b, prev)[n - 1] == b[n - 1]);
            assert(fits_i64(spec_apply_deltas(b, prev)[n - 1] + d));
            assert(spec_apply_deltas(b, cur) == spec_apply_deltas(b, prev).update(
                n - 1,
                (spec_apply_deltas(b, prev)[n - 1] + d) as i64,
            ));
        }
    }
}

/// The reconstruction error of a sparse delta never exceeds the
/// threshold, in either direction, in any component.
pub proof fn lemma_delta_error_bound(v: Seq<i64>, b: Seq<i64>, thr: int)
    requires
        vec_ok(v),
        vec_ok(b),
        v.len() == b.len(),
        0 <= thr,
    ensures
        forall|i: int|
            0 <= i < v.len() ==> -thr <= #[trigger] spec_apply_deltas(
                b,
                spec_sparse_deltas(v, b, thr, v.len() as int),
            )[i] - v[i] <= thr,
{
    lemma_sparse_apply(v, b, thr, v.len() as int);
}

/// The reconstruction error of a quantised sparse delta never exceeds
/// the larger of the sparsity threshold and the quantisation scale, in
/// any component: a dropped difference was within the threshold, a kept
/// one is reproduced up to half the scale by rounding.
pub proof fn lemma_quantized_error_bound(v: Seq<i64>, b: Seq<i64>, thr: int, s: int, n: int)
    requires
        vec_ok(v),
        vec_ok(b),
        v.len() == b.len(),
        0 <= n <= v.len(),
        0 <= thr,
        s >= 1,
        forall|j: int| 0 <= j < n ==> -127 * s <= #[trigger] (v[j] - b[j]) <= 127 * s,
    ensures
        spec_apply_quantized(b, spec_quantize(spec_sparse_deltas(v, b, thr, n), s), s).len()
            == b.len(),
        forall|i: int|
            0 <= i < b.len() ==> (if i < n {
                -max2(thr, s) <= #[trigger] spec_apply_quantized(
                    b,
                    spec_quantize(spec_sparse_deltas(v, b, thr, n), s),
                    s,
                )[i] - v[i] <= max2(thr, s)
            } else {
                spec_apply_quantized(
                    b,
                    spec_quantize(spec_sparse_deltas(v, b, thr, n), s),
                    s,
                )[i] == b[i]
            }),
    decreases n,
{
    if n > 0 {
        lemma_quantized_error_bound(v, b, thr, s, n - 1);
        let prev_ds = spec_sparse_deltas(v, b, thr, n - 1);
        let prev_q = spec_quantize(prev_ds, s);
        let prev_w = spec_apply_quantized(b, prev_q, s);
        let d = v[n - 1] - b[n - 1];
        if d > thr || d < -thr {
            let p = (((n - 1) as u16, d as i64));
            let cur_ds = prev_ds.push(p);
            assert(cur_ds.drop_last() =~= prev_ds);
            assert(cur_ds.last() == p);
            let mag = if d >= 0 {
                d
            } else {
                -d
            };
            assert(-127 * s <= v[n - 1] - b[n - 1] <= 127 * s);
            let qm = (2 * mag + s) / (2 * s);
            vstd::arithmetic::div_mod::lemma_fundamental_div_mod(2 * mag + s, 2 * s);
            vstd::arithmetic::div_mod::lemma_div_pos_is_pos(2 * mag + s, 2 * s);
            vstd::arithmetic::div_mod::lemma_mod_bound(2 * mag + s, 2 * s);
            assert(0 <= 2 * mag + s - qm * (2 * s) < 2 * s);
            // Rounded magnitude: off by at most half a scale step.
            assert(-s <= 2 * (mag - qm * s) < s) by (nonlinear_arith)
                requires
                    s >= 1,
                    0 <= 2 * mag + s - qm * (2 * s) < 2 * s,
            ;
            assert(qm >= 0);
            assert(qm <= 127) by (nonlinear_arith)
                requires
                    s >= 1,
                    0 <= mag <= 127 * s,
                    qm >= 0,
                    0 <= 2 * mag + s - qm * (2 * s) < 2 * s,
            ;
            let q = if d >= 0 {
                qm
            } else {
                -qm
            };
            assert((-qm) * s == -(qm * s)) by (nonlinear_arith);
            if q != 0 {
                let cur_q = prev_q.push((p.0, q as i8));
                assert(spec_quantize(cur_ds, s) == cur_q);
                assert(cur_q.drop_last() =~= prev_q);
                assert(cur_q.last() == (p.0, q as i8));
                assert(prev_w[n - 1] == b[n - 1]);
                assert(-127 <= q <= 127);
                assert(q == q as i8);
                assert(-127 * s <= (q as i8) * s <= 127 * s) by (nonlinear_arith)
                    requires
                        s >= 1,
                        -127 <= (q as i8) as int <= 127,
                ;
                assert(qm >= 1);
                assert(-COORD_LIMIT <= b[n - 1] <= COORD_LIMIT);
                assert(mag <= 2 * COORD_LIMIT);
                assert(-2 * mag <= q * s <= 2 * mag) by (nonlinear_arith)
                    requires
                        s >= 1,
                        qm >= 1,
                        mag >= 0,
                        -s <= 2 * (mag - qm * s) < s,
                        q * s == (if d >= 0 {
                            qm * s
                        } else {
                            -(qm * s)
                        }),
                ;
                assert(q * s == ((q as i8) as int) * s);
                assert(fits_i64((q as i8) * s));
                assert(fits_i64(prev_w[n - 1] + (q as i8) * s));
                let cur_w = spec_apply_quantized(b, cur_q, s);
                assert(cur_w == prev_w.update(n - 1, (prev_w[n - 1] + (q as i8) * s) as i64));
                assert(cur_w[n - 1] == b[n - 1] + q * s);
                assert(-s < cur_w[n - 1] - v[n - 1] < s) by (nonlinear_arith)
                    requires
                        s >= 1,
                        cur_w[n - 1] - v[n - 1] == b[n - 1] + q * s - v[n - 1],
                        d == v[n - 1] - b[n - 1],
                        mag == (if d >= 0 {
                            d
                        } else {
                            -d
                        }),
                        q * s == (if d >= 0 {
                            qm * s
                        } else {
                            -(qm * s)
                        }),
                        -s <= 2 * (mag - qm * s) < s,
                ;
            } else {
                assert(spec_quantize(cur_ds, s) == prev_q);
                assert(qm == 0);
                assert(mag < s) by (nonlinear_arith)
                    requires
                        s >= 1,
                        mag >= 0,
                        qm == 0,
                        -s <= 2 * (mag - qm * s) < s,
                ;
            }
        }
    }
}

/// The largest absolute difference among the kept sparse-delta
/// entries; zero when none was kept.
pub open spec fn max_abs_deltas(ds: Seq<(u16, i64)>) -> int
    decreases ds.len(),
{
    if ds.len() == 0 {
        0
    } else {
        let rest = max_abs_deltas(ds.drop_last());
        let a = if ds.last().1 >= 0 {
            ds.last().1 as int
        } else {
            -(ds.last().1 as int)
        };
        if a > rest {
            a
        } else {
            rest
        }
    }
}

/// The quantisation scale chosen for a delta sequence: one when every
/// kept difference already fits a signed byte, else the least factor
/// (rounded up) that brings the largest difference under 128.
pub open spec fn spec_scale_of(ds: Seq<(u16, i64)>) -> int {
    if max_abs_deltas(ds) > 127 {
        (max_abs_deltas(ds) + 126) / 127
    } else {
        1
    }
}

/// The quantised deltas: each kept difference divided by the scale and
/// rounded to the nearest step (halves away from zero), entries that
/// quantise to zero dropped.
pub open spec fn spec_quantize(ds: Seq<(u16, i64)>, scale: int) -> Seq<(u16, i8)>
    decreases ds.len(),
{
    if ds.len() == 0 {
        Seq::empty()
    } else {
        let rest = spec_quantize(ds.drop_last(), scale);
        let p = ds.last();
        let q = if p.1 >= 0 {
            (2 * (p.1 as int) + scale) / (2 * scale)
        } else {
            -((2 * (-(p.1 as int)) + scale) / (2 * scale))
        };
        if q != 0 {
            rest.push((p.0, q as i8))
        } else {
            rest
        }
    }
}

impl DeltaCompressor {
    /// Compresses `vector` against `base`.  With compression off or
    /// mismatched dimensions the full vector is returned; when the
    /// sparse delta would be denser than the configured bound, `None`
    /// asks the caller to store an anchor instead.  A returned sparse
    /// delta reconstructs `vector` within the sparsity threshold per
    /// component.
    pub fn compress(&self, vector: &Vec<i64>, base: &Vec<i64>) -> (r: Option<
        CompressedVector,
    >)
        requires
            vec_ok(vector@),
            vec_ok(base@),
            self.spec_config().wf(),
        ensures
            ({
                let cfg = self.spec_config();
                let dim = vector@.len() as int;
                let ds = spec_sparse_deltas(vector@, base@, cfg.sparsity_threshold as int,
                dim);
                if cfg.mode is NoCompression || vector@.len() != base@.len() {
                    r matches Option::Some(cv) && cv matches CompressedVector::Full(f)
                        && f@ == vector@
                } else if ds.len() * 100 > cfg.max_density * dim {
                    r is None
                } else if cfg.mode is Delta {
                    r matches Option::Some(cv) && (cv matches CompressedVector::Delta {
                        base_id,
                        deltas,
                        norm,
                    } && base_id == 0 && deltas@ == ds && is_isqrt(
                        sum_sq_n(vector@, dim),
                        norm as int,
                    ))
                } else {
                    r matches Option::Some(cv) && (cv
                        matches CompressedVector::QuantizedDelta {
                        base_id,
                        deltas,
                        scale,
                        norm,
                    } && base_id == 0 && scale == spec_scale_of(ds) && deltas@
                        == spec_quantize(ds, scale as int) && is_isqrt(
                        sum_sq_n(vector@, dim),
                        norm as int,
                    ))
                }
            }),
    {
        let ghost cfg = self.spec_config();
        let dim = vector.len();
        let is_off = match self.config.mode {
            CompressionMode::NoCompression => true,
            _ => false,
        };
        if is_off || dim != base.len() {
            return Option::Some(CompressedVector::Full(
                vstd::slice::slice_to_vec(vector.as_slice()),
            ));
        }
        let thr = self.config.sparsity_threshold;
        let mut ds: Vec<(u16, i64)> = Vec::new();
        let mut max_abs: i64 = 0;
        let mut k: usize = 0;
        while k < dim
            invariant
                vec_ok(vector@),
                vec_ok(base@),
                vector@.len() == base@.len(),
                dim == vector@.len(),
                0 <= thr <= COORD_LIMIT,
                thr == cfg.sparsity_threshold,
                k <= dim,
                ds@ == spec_sparse_deltas(vector@, base@, thr as int, k as int),
                ds@.len() <= k,
                0 <= max_abs <= 2 * COORD_LIMIT,
                max_abs as int == max_abs_deltas(ds@),
                forall|j: int|
                    0 <= j < ds@.len() ==> -max_abs <= (#[trigger] ds@[j]).1 <= max_abs,
            decreases dim - k,
        {
            let d = vector[k] - base[k];
            if d > thr || d < -thr {
                let ghost prev = ds@;
                ds.push((k as u16, d));
                let a = if d >= 0 {
                    d
                } else {
                    -d
                };
                if a > max_abs {
                    max_abs = a;
                }
                proof {
                    assert(ds@ =~= spec_sparse_deltas(
                        vector@,
                        base@,
                        thr as int,
                        k as int + 1,
                    ));
                    assert(ds@.drop_last() =~= prev);
                    assert(max_abs as int == max_abs_deltas(ds@));
                }
            }
            k = k + 1;
        }
        // The density gate: a delta denser than the bound is refused.
        proof {
            assert((cfg.max_density as int) * (dim as int) <= 6553600)
                by (nonlinear_arith)
                requires
                    cfg.max_density <= 100,
                    0 <= dim <= 65536,
            ;
        }
        if ds.len() * 100 > (self.config.max_density as usize) * dim {
            return Option::None;
        }
        let nv = norm(vector);
        match self.config.mode {
            CompressionMode::Delta => Option::Some(
                CompressedVector::Delta { base_id: 0, deltas: ds, norm: nv },
            ),
            _ => {
                // Quantised: scale so the largest kept difference fits a
                // signed byte.
                let scale: i64 = if max_abs > 127 {
                    (max_abs + 126) / 127
                } else {
                    1
                };
                proof {
                    assert(scale as int == spec_scale_of(ds@));
                    if max_abs > 127 {
                        vstd::arithmetic::div_mod::lemma_fundamental_div_mod(
                            max_abs as int + 126,
                            127,
                        );
                        vstd::arithmetic::div_mod::lemma_mod_bound(
                            max_abs as int + 126,
                            127,
                        );
                        vstd::arithmetic::div_mod::lemma_div_pos_is_pos(
                            max_abs as int + 126,
                            127,
                        );
                        assert(scale <= 2 * COORD_LIMIT) by (nonlinear_arith)
                            requires
                                scale as int == (max_abs as int + 126) / 127,
                                max_abs as int + 126 == 127 * ((max_abs as int + 126)
                                    / 127) + (max_abs as int + 126) % 127,
                                0 <= (max_abs as int + 126) % 127 < 127,
                                max_abs <= 2 * 1048576,
                        ;
                    }
                    assert(1 <= scale <= 2 * COORD_LIMIT);
                }
                let ghost gds = ds@;
                let mut qds: Vec<(u16, i8)> = Vec::new();
                let mut t: usize = 0;
                while t < ds.len()
                    invariant
                        1 <= scale <= 2 * COORD_LIMIT,
                        0 <= max_abs <= 2 * COORD_LIMIT,
                        max_abs <= 127 * scale,
                        forall|j: int|
                            0 <= j < gds.len() ==> -max_abs <= (#[trigger] gds[j]).1
                                <= max_abs,
                        gds == ds@,
                        t <= ds@.len(),
                        qds@ == spec_quantize(gds.take(t as int), scale as int),
                    decreases ds@.len() - t,
                {
                    let p = ds[t];
                    let mag = if p.1 >= 0 {
                        p.1
                    } else {
                        -p.1
                    };
                    proof {
                        assert(gds[t as int] == ds@[t as int]);
                        assert(0 <= mag <= max_abs);
                    }
                    let qm = (2 * mag + scale) / (2 * scale);
                    proof {
                        assert(qm as int == (2 * (mag as int) + scale) / (2
                            * (scale as int)));
                        vstd::arithmetic::div_mod::lemma_fundamental_div_mod(
                            2 * mag as int + scale as int,
                            2 * scale as int,
                        );
                        vstd::arithmetic::div_mod::lemma_div_pos_is_pos(
                            2 * mag as int + scale as int,
                            2 * scale as int,
                        );
                        vstd::arithmetic::div_mod::lemma_mod_bound(
                            2 * mag as int + scale as int,
                            2 * scale as int,
                        );
                        assert(0 <= qm <= 127) by (nonlinear_arith)
                            requires
                                scale >= 1,
                                0 <= mag <= 127 * scale,
                                qm >= 0,
                                0 <= 2 * (mag as int) + scale - (qm as int) * (2
                                    * (scale as int)) < 2 * scale,
                        ;
                        assert(gds.take(t as int + 1).drop_last() =~= gds.take(t as int));
                        assert(gds.take(t as int + 1).last() == gds[t as int]);
                    }
                    let q: i64 = if p.1 >= 0 {
                        qm
                    } else {
                        -qm
                    };
                    if q != 0 {
                        qds.push((p.0, q as i8));
                    }
                    t = t + 1;
                }
                proof {
                    assert(gds.take(ds@.len() as int) =~= gds);
                }
                Option::Some(
                    CompressedVector::QuantizedDelta {
                        base_id: 0,
                        deltas: qds,
                        scale,
                        norm: nv,
                    },
                )
            },
        }
    }

    /// Decompresses an entry.  A full vector is copied; a delta form
    /// needs its base vector and applies the (scaled) deltas to it.
    pub fn decompress(&self, compressed: &CompressedVector, base: Option<&Vec<i64>>) -> (r:
        Option<Vec<i64>>)
        ensures
            match compressed {
                CompressedVector::Full(v) => r matches Option::Some(out) && out@ == v@,
                CompressedVector::Delta { deltas, .. } => match base {
                    Option::Some(b) => r matches Option::Some(out) && out@
                        == spec_apply_deltas(b@, deltas@),
                    Option::None => r is None,
                },
                CompressedVector::QuantizedDelta { deltas, scale, .. } => match base {
                    Option::Some(b) => r matches Option::Some(out) && out@
                        == spec_apply_quantized(b@, deltas@, *scale as int),
                    Option::None => r is None,
                },
            },
    {
        match compressed {
            CompressedVector::Full(v) => Option::Some(
                vstd::slice::slice_to_vec(v.as_slice()),
            ),
            CompressedVector::Delta { deltas, .. } => {
                let b = match base {
                    Option::Some(b) => b,
                    Option::None => {
                        return Option::None;
                    },
                };
                let mut out = vstd::slice::slice_to_vec(b.as_slice());
                let ghost gd = deltas@;
                let mut k: usize = 0;
                while k < deltas.len()
                    invariant
                        gd == deltas@,
                        k <= gd.len(),
                        out@ == spec_apply_deltas(b@, gd.take(k as int)),
                    decreases gd.len() - k,
                {
                    proof {
                        assert(gd.take(k as int + 1).drop_last() =~= gd.take(k as int));
                        assert(gd.take(k as int + 1).last() == gd[k as int]);
                    }
                    let p = deltas[k];
                    if (p.0 as usize) < out.len() {
                        let cur = out[p.0 as usize];
                        match cur.checked_add(p.1) {
                            Option::Some(s) => {
                                out.set(p.0 as usize, s);
                            },
                            Option::None => {},
                        }
                    }
                    k = k + 1;
                }
                proof {
                    assert(gd.take(gd.len() as int) =~= gd);
                }
                Option::Some(out)
            },
            CompressedVector::QuantizedDelta { deltas, scale, .. } => {
                let b = match base {
                    Option::Some(b) => b,
                    Option::None => {
                        return Option::None;
                    },
                };
                let mut out = vstd::slice::slice_to_vec(b.as_slice());
                let ghost gd = deltas@;
                let sc = *scale;
                let mut k: usize = 0;
                while k < deltas.len()
                    invariant
                        gd == deltas@,
                        sc == *scale,
                        k <= gd.len(),
                        out@ == spec_apply_quantized(b@, gd.take(k as int), sc as int),
                    decreases gd.len() - k,
                {
                    proof {
                        assert(gd.take(k as int + 1).drop_last() =~= gd.take(k as int));
                        assert(gd.take(k as int + 1).last() == gd[k as int]);
                    }
                    let p = deltas[k];
                    if (p.0 as usize) < out.len() {
                        match (p.1 as i64).checked_mul(sc) {
                            Option::Some(prod) => {
                                let cur = out[p.0 as usize];
                                match cur.checked_add(prod) {
                                    Option::Some(s) => {
                                        out.set(p.0 as usize, s);
                                    },
                                    Option::None => {},
                                }
                            },
                            Option::None => {},
                        }
                    }
                    k = k + 1;
                }
                proof {
                    assert(gd.take(gd.len() as int) =~= gd);
                }
                Option::Some(out)
            },
        }
    }
}


fn apply_deltas_exec(base: Vec<i64>, deltas: &Vec<(u16, i64)>) -> (r: Vec<i64>)
    ensures
        r@ == spec_apply_deltas(base@, deltas@),
{
    let mut out = base;
    let ghost gb = out@;
    let ghost gd = deltas@;
    let mut k: usize = 0;
    while k < deltas.len()
        invariant
            gd == deltas@,
            k <= gd.len(),
            out@ == spec_apply_deltas(gb, gd.take(k as int)),
        decreases gd.len() - k,
    {
        proof {
            assert(gd.take(k as int + 1).drop_last() =~= gd.take(k as int));
            assert(gd.take(k as int + 1).last() == gd[k as int]);
        }
        let p = deltas[k];
        if (p.0 as usize) < out.len() {
            let cur = out[p.0 as usize];
            match cur.checked_add(p.1) {
                Option::Some(s) => {
                    out.set(p.0 as usize, s);
                },
                Option::None => {},
            }
        }
        k = k + 1;
    }
    proof {
        assert(gd.take(gd.len() as int) =~= gd);
    }
    out
}

fn apply_quantized_exec(base: Vec<i64>, deltas: &Vec<(u16, i8)>, scale: i64) -> (r: Vec<
    i64,
>)
    ensures
        r@ == spec_apply_quantized(base@, deltas@, scale as int),
{
    let mut out = base;
    let ghost gb = out@;
    let ghost gd = deltas@;
    let mut k: usize = 0;
    while k < deltas.len()
        invariant
            gd == deltas@,
            k <= gd.len(),
            out@ == spec_apply_quantized(gb, gd.take(k as int), scale as int),
        decreases gd.len() - k,
    {
        proof {
            assert(gd.take(k as int + 1).drop_last() =~= gd.take(k as int));
            assert(gd.take(k as int + 1).last() == gd[k as int]);
        }
        let p = deltas[k];
        if (p.0 as usize) < out.len() {
            match (p.1 as i64).checked_mul(scale) {
                Option::Some(prod) => {
                    let cur = out[p.0 as usize];
                    match cur.checked_add(prod) {
                        Option::Some(s) => {
                            out.set(p.0 as usize, s);
                        },
                        Option::None => {},
                    }
                },
                Option::None => {},
            }
        }
        k = k + 1;
    }
    proof {
        assert(gd.take(gd.len() as int) =~= gd);
    }
    out
}

/// Storage statistics of a compressed store.
#[derive(Debug)]
pub struct CompressionStats {
    pub total_vectors: usize,
    pub anchor_count: usize,
    pub delta_count: usize,
    pub compressed_bytes: usize,
    pub uncompressed_bytes: usize,
    pub compression_ratio: u64,
    pub avg_delta_size: usize,
}

/// A store of compressed vectors with anchor management.
pub struct CompressedVectorStore {
    config: CompressionConfig,
    vectors: Vec<(u64, CompressedVector)>,
    anchors: Vec<u64>,
    total_count: usize,
    dimensions: usize,
}

/// The stored (id, entry) pairs, in insertion order.
pub closed spec fn store_model(s: CompressedVectorStore) -> Seq<(u64, CompressedVector)> {
    s.vectors@
}

/// The ids marked as anchors, in insertion order.
pub closed spec fn store_anchors(s: CompressedVectorStore) -> Seq<u64> {
    s.anchors@
}

/// The store's compression settings.
pub closed spec fn store_config(s: CompressedVectorStore) -> CompressionConfig {
    s.config
}

/// The stored ids, in insertion order.
pub open spec fn store_ids(s: CompressedVectorStore) -> Seq<u64> {
    Seq::new(store_model(s).len(), |i: int| store_model(s)[i].0)
}

/// Whether the store holds an entry for `id`.
pub open spec fn store_has(s: CompressedVectorStore, id: u64) -> bool {
    exists|j: int| 0 <= j < store_ids(s).len() && store_ids(s)[j] == id
}

/// The entry stored under `id`, if any.
pub open spec fn model_entry(m: Seq<(u64, CompressedVector)>, id: u64) -> Option<
    CompressedVector,
> {
    if exists|j: int| 0 <= j < m.len() && (#[trigger] m[j]).0 == id {
        let j = choose|j: int| 0 <= j < m.len() && (#[trigger] m[j]).0 == id;
        Option::Some(m[j].1)
    } else {
        Option::None
    }
}

/// The vector an entry reconstructs to: anchors as stored, delta forms
/// by applying their deltas to the (recursively reconstructed) base.
/// A delta whose base is missing or not older reconstructs to nothing.
pub open spec fn spec_reconstruct(m: Seq<(u64, CompressedVector)>, id: u64) -> Option<
    Seq<i64>,
>
    decreases id,
{
    match model_entry(m, id) {
        Option::None => Option::None,
        Option::Some(e) => match e {
            CompressedVector::Full(v) => Option::Some(v@),
            CompressedVector::Delta { base_id, deltas, .. } => {
                if base_id < id {
                    match spec_reconstruct(m, base_id) {
                        Option::Some(b) => Option::Some(spec_apply_deltas(b, deltas@)),
                        Option::None => Option::None,
                    }
                } else {
                    Option::None
                }
            },
            CompressedVector::QuantizedDelta { base_id, deltas, scale, .. } => {
                if base_id < id {
                    match spec_reconstruct(m, base_id) {
                        Option::Some(b) => Option::Some(
                            spec_apply_quantized(b, deltas@, scale as int),
                        ),
                        Option::None => Option::None,
                    }
                } else {
                    Option::None
                }
            },
        },
    }
}

/// Whether no stored delta names `id` as its base.
pub open spec fn store_dep_free(s: CompressedVectorStore, id: u64) -> bool {
    forall|j: int|
        0 <= j < store_model(s).len() ==> match (#[trigger] store_model(s)[j]).1 {
            CompressedVector::Delta { base_id, .. } => base_id != id,
            CompressedVector::QuantizedDelta { base_id, .. } => base_id != id,
            CompressedVector::Full(_) => true,
        }
}

/// Whether an insertion is stored as an anchor: compression off, no
/// anchor yet, the insertion counter hitting the anchor frequency, no
/// usable older neighbour, or a delta that would be too dense.
pub open spec fn spec_insert_as_anchor(
    s: CompressedVectorStore,
    id: u64,
    v: Seq<i64>,
    nb: Option<u64>,
) -> bool {
    let cfg = store_config(s);
    let tc = if s.spec_total() < usize::MAX {
        s.spec_total() + 1
    } else {
        s.spec_total()
    };
    ||| cfg.mode is NoCompression
    ||| store_anchors(s).len() == 0
    ||| tc % (cfg.anchor_frequency as int) == 0
    ||| nb is None
    ||| (nb matches Option::Some(b) && ({
        ||| spec_reconstruct(store_model(s), b) is None
        ||| !(b < id)
        ||| (spec_reconstruct(store_model(s), b) matches Option::Some(base) && ({
            ||| base.len() != v.len()
            ||| !vec_ok(base)
            ||| spec_sparse_deltas(
                v,
                base,
                cfg.sparsity_threshold as int,
                v.len() as int,
            ).len() * 100 > cfg.max_density * v.len()
        }))
    }))
}

/// The packed byte cost of one stored entry.
pub open spec fn spec_storage_bytes(e: CompressedVector) -> int {
    match e {
        CompressedVector::Full(v) => (v@.len() * 4 + 8) as int,
        CompressedVector::Delta { deltas, .. } => (deltas@.len() * 6 + 16) as int,
        CompressedVector::QuantizedDelta { deltas, .. } => (deltas@.len() * 3 + 20) as int,
    }
}

/// The total packed byte cost of a store's entries.
pub open spec fn spec_sum_bytes(m: Seq<(u64, CompressedVector)>) -> int
    decreases m.len(),
{
    if m.len() == 0 {
        0
    } else {
        spec_sum_bytes(m.drop_last()) + spec_storage_bytes(m.last().1)
    }
}

/// A value clamped from above into the usize range.
pub open spec fn sat_usize(x: int) -> int {
    if x > usize::MAX {
        usize::MAX as int
    } else {
        x
    }
}

/// In a store with unique ids, the entry under a present id is the one
/// at its index.
proof fn lemma_model_entry_at(s: CompressedVectorStore, i: int)
    requires
        s.wf(),
        0 <= i < store_model(s).len(),
    ensures
        model_entry(store_model(s), store_model(s)[i].0) == Option::Some(
            store_model(s)[i].1,
        ),
{
    let m = store_model(s);
    let id = m[i].0;
    assert(exists|j: int| 0 <= j < m.len() && (#[trigger] m[j]).0 == id);
    let j = choose|j: int| 0 <= j < m.len() && (#[trigger] m[j]).0 == id;
    if j != i {
        if j < i {
            assert(m[j].0 != m[i].0);
        } else {
            assert(m[i].0 != m[j].0);
        }
    }
}

impl CompressedVectorStore {
    /// The configured dimensionality.
    pub closed spec fn spec_dims(self) -> int {
        self.dimensions as int
    }

    /// The number of insertions so far.
    pub closed spec fn spec_total(self) -> int {
        self.total_count as int
    }

    /// The store's invariant: ids unique; every full entry is a valid
    /// vector of the right dimension; every delta form names an earlier
    /// id as its base and respects the density bound.
    pub closed spec fn wf(self) -> bool {
        &&& self.config.wf()
        &&& 1 <= self.dimensions <= DIM_LIMIT
        &&& forall|i: int, j: int|
            0 <= i < j < self.vectors@.len() ==> (#[trigger] self.vectors@[i]).0 != (
            #[trigger] self.vectors@[j]).0
        &&& forall|j: int|
            0 <= j < self.vectors@.len() ==> entry_ok(
                self.config,
                self.dimensions as int,
                (#[trigger] self.vectors@[j]).0,
                self.vectors@[j].1,
                store_ids(self),
            )
    }

    /// An empty store.
    pub fn new(dimensions: usize, config: CompressionConfig) -> (r: CompressedVectorStore)
        requires
            1 <= dimensions <= DIM_LIMIT,
            config.wf(),
        ensures
            r.wf(),
            store_ids(r).len() == 0,
            r.spec_dims() == dimensions,
            r.spec_total() == 0,
    {
        let r = CompressedVectorStore {
            config,
            vectors: Vec::new(),
            anchors: Vec::new(),
            total_count: 0,
            dimensions,
        };
        proof {
            assert(store_ids(r) =~= Seq::<u64>::empty());
        }
        r
    }

    fn find_entry(&self, id: u64) -> (r: Option<usize>)
        ensures
            match r {
                Option::Some(i) => i < self.vectors@.len() && self.vectors@[i as int].0
                    == id,
                Option::None => !store_has(*self, id),
            },
    {
        let mut k: usize = 0;
        while k < self.vectors.len()
            invariant
                k <= self.vectors@.len(),
                forall|j: int| 0 <= j < k ==> (#[trigger] self.vectors@[j]).0 != id,
            decreases self.vectors@.len() - k,
        {
            if self.vectors[k].0 == id {
                return Option::Some(k);
            }
            k = k + 1;
        }
        proof {
            assert forall|j: int| 0 <= j < store_ids(*self).len() implies store_ids(
                *self,
            )[j] != id by {
                assert(store_ids(*self)[j] == self.vectors@[j].0);
            }
        }
        Option::None
    }

    /// Whether `id` is stored as an anchor.
    pub fn is_anchor(&self, id: u64) -> (r: bool)
    {
        let mut k: usize = 0;
        while k < self.anchors.len()
            decreases self.anchors@.len() - k,
        {
            if self.anchors[k] == id {
                return true;
            }
            k = k + 1;
        }
        false
    }

    /// The number of stored vectors.
    pub fn len(&self) -> (r: usize)
        ensures
            r == store_ids(*self).len(),
    {
        self.vectors.len()
    }

    /// Whether the store is empty.
    pub fn is_empty(&self) -> (r: bool)
        ensures
            r == (store_ids(*self).len() == 0),
    {
        self.vectors.len() == 0
    }

    /// The stored entry for `id`, if any.
    pub fn get_compressed(&self, id: u64) -> (r: Option<&CompressedVector>)
        ensures
            r is Some <==> store_has(*self, id),
    {
        match self.find_entry(id) {
            Option::Some(i) => {
                proof {
                    assert(store_ids(*self)[i as int] == id);
                }
                Option::Some(&self.vectors[i].1)
            },
            Option::None => Option::None,
        }
    }

    /// The fully decompressed vector for `id`: anchors are copied,
    /// delta forms are reconstructed from their (recursively
    /// decompressed) base.
    pub fn get_full(&self, id: u64) -> (r: Option<Vec<i64>>)
        requires
            self.wf(),
        ensures
            r is Some <==> store_has(*self, id),
            r matches Option::Some(v) ==> v@.len() == self.spec_dims()
                && spec_reconstruct(store_model(*self), id) == Option::Some(v@),
            r is None ==> spec_reconstruct(store_model(*self), id) is None,
        decreases id,
    {
        let i = match self.find_entry(id) {
            Option::Some(i) => i,
            Option::None => {
                proof {
                    assert forall|j: int| 0 <= j < store_model(*self).len() implies (
                    #[trigger] store_model(*self)[j]).0 != id by {
                        assert(store_ids(*self)[j] == store_model(*self)[j].0);
                    }
                    assert(model_entry(store_model(*self), id) is None);
                }
                return Option::None;
            },
        };
        proof {
            assert(store_ids(*self)[i as int] == id);
            lemma_model_entry_at(*self, i as int);
            assert(entry_ok(
                self.config,
                self.dimensions as int,
                self.vectors@[i as int].0,
                self.vectors@[i as int].1,
                store_ids(*self),
            ));
        }
        match &self.vectors[i].1 {
            CompressedVector::Full(v) => {
                let out = vstd::slice::slice_to_vec(v.as_slice());
                proof {
                    assert(spec_reconstruct(store_model(*self), id) == Option::Some(
                        out@,
                    ));
                }
                Option::Some(out)
            },
            CompressedVector::Delta { base_id, deltas, .. } => {
                let base = match self.get_full(*base_id) {
                    Option::Some(b) => b,
                    Option::None => {
                        proof {
                            assert(false);
                        }
                        return Option::None;
                    },
                };
                let ghost blen = base@.len();
                let ghost gbase = base@;
                let out = apply_deltas_exec(base, deltas);
                proof {
                    lemma_apply_deltas_len(blen, deltas@);
                    assert(spec_reconstruct(store_model(*self), id) == Option::Some(
                        spec_apply_deltas(gbase, deltas@),
                    ));
                }
                Option::Some(out)
            },
            CompressedVector::QuantizedDelta { base_id, deltas, scale, .. } => {
                let base = match self.get_full(*base_id) {
                    Option::Some(b) => b,
                    Option::None => {
                        proof {
                            assert(false);
                        }
                        return Option::None;
                    },
                };
                let ghost blen = base@.len();
                let ghost gbase = base@;
                let out = apply_quantized_exec(base, deltas, *scale);
                proof {
                    lemma_apply_quantized_len(blen, deltas@, *scale as int);
                    assert(spec_reconstruct(store_model(*self), id) == Option::Some(
                        spec_apply_quantized(gbase, deltas@, *scale as int),
                    ));
                }
                Option::Some(out)
            },
        }
    }

    /// Inserts a vector.  Returns false (and stores nothing) when the
    /// dimension does not match.  The vector is stored as an anchor
    /// when compression is off, no anchor exists yet, the insertion
    /// counter says so, or the delta against the neighbour would be too
    /// dense; otherwise it is stored as a sparse delta against the
    /// given neighbour.
    pub fn insert(&mut self, id: u64, vector: Vec<i64>, neighbor_id: Option<u64>) -> (r:
        bool)
        requires
            old(self).wf(),
            vec_ok(vector@),
            forall|j: int| 0 <= j < store_ids(*old(self)).len() ==> store_ids(
                *old(self),
            )[j] < id,
        ensures
            final(self).wf(),
            final(self).spec_dims() == old(self).spec_dims(),
            r == (vector@.len() == old(self).spec_dims()),
            r ==> store_has(*final(self), id) && store_ids(*final(self)) == store_ids(
                *old(self),
            ).push(id) && final(self).spec_total() == (if old(self).spec_total()
                < usize::MAX {
                old(self).spec_total() + 1
            } else {
                old(self).spec_total()
            }),
            r ==> ({
                let m0 = store_model(*old(self));
                let m2 = store_model(*final(self));
                let cfg = store_config(*old(self));
                let e = m2.last().1;
                &&& store_config(*final(self)) == cfg
                &&& m2 == m0.push((id, e))
                &&& if spec_insert_as_anchor(*old(self), id, vector@, neighbor_id) {
                    (e matches CompressedVector::Full(f) && f@ == vector@)
                        && store_anchors(*final(self)) == store_anchors(
                        *old(self),
                    ).push(id)
                } else {
                    let b = neighbor_id->Some_0;
                    let base = spec_reconstruct(m0, b)->Some_0;
                    let ds = spec_sparse_deltas(
                        vector@,
                        base,
                        cfg.sparsity_threshold as int,
                        vector@.len() as int,
                    );
                    &&& store_anchors(*final(self)) == store_anchors(*old(self))
                    &&& match cfg.mode {
                        CompressionMode::Delta => e matches CompressedVector::Delta {
                            base_id,
                            deltas,
                            norm,
                        } && base_id == b && deltas@ == ds && is_isqrt(
                            sum_sq_n(vector@, vector@.len() as int),
                            norm as int,
                        ),
                        CompressionMode::QuantizedDelta => e
                            matches CompressedVector::QuantizedDelta {
                            base_id,
                            deltas,
                            scale,
                            norm,
                        } && base_id == b && scale == spec_scale_of(ds) && deltas@
                            == spec_quantize(ds, scale as int) && is_isqrt(
                            sum_sq_n(vector@, vector@.len() as int),
                            norm as int,
                        ),
                        CompressionMode::NoCompression => false,
                    }
                }
            }),
            !r ==> *final(self) == *old(self),
    {
        if vector.len() != self.dimensions {
            return false;
        }
        if self.total_count < usize::MAX {
            self.total_count = self.total_count + 1;
        }
        let ghost pre = *self;
        let ghost sa_spec = spec_insert_as_anchor(*old(self), id, vector@, neighbor_id);
        proof {
            assert(store_model(pre) == store_model(*old(self)));
            assert(store_anchors(pre) == store_anchors(*old(self)));
        }
        let should_anchor = match self.config.mode {
            CompressionMode::NoCompression => true,
            _ => self.anchors.len() == 0 || self.total_count
                % self.config.anchor_frequency == 0,
        };
        proof {
            let cfg = store_config(*old(self));
            let tc = if old(self).spec_total() < usize::MAX {
                old(self).spec_total() + 1
            } else {
                old(self).spec_total()
            };
            assert(self.total_count as int == tc);
            assert(should_anchor == (cfg.mode is NoCompression || store_anchors(
                *old(self),
            ).len() == 0 || tc % (cfg.anchor_frequency as int) == 0));
        }
        if !should_anchor {
            if let Option::Some(nb) = neighbor_id {
                if let Option::Some(base_vector) = self.get_full(nb) {
                    if nb < id && base_vector.len() == vector.len() && vec_ok_exec(
                        &base_vector,
                    ) {
                        let compressor = DeltaCompressor::new(self.config.clone());
                        if let Option::Some(mut compressed) = compressor.compress(
                            &vector,
                            &base_vector,
                        ) {
                            let entry = match compressed {
                                CompressedVector::Full(f) => CompressedVector::Full(f),
                                CompressedVector::Delta { deltas, norm, .. } => {
                                    proof {
                                        assert((deltas@.len() as int) * 100 <= (
                                        self.config.max_density as int) * (
                                        self.dimensions as int)) by (nonlinear_arith)
                                            requires
                                                deltas@.len() * 100 <= (
                                                self.config.max_density as int) * (
                                                vector@.len() as int),
                                                vector@.len() == self.dimensions,
                                        ;
                                    }
                                    CompressedVector::Delta {
                                        base_id: nb,
                                        deltas,
                                        norm,
                                    }
                                },
                                CompressedVector::QuantizedDelta {
                                    deltas,
                                    scale,
                                    norm,
                                    ..
                                } => CompressedVector::QuantizedDelta {
                                    base_id: nb,
                                    deltas,
                                    scale,
                                    norm,
                                },
                            };
                            let ghost gentry = entry;
                            proof {
                                lemma_sparse_deltas_len(
                                    vector@,
                                    base_vector@,
                                    compressor.spec_config().sparsity_threshold as int,
                                    vector@.len() as int,
                                );
                                lemma_quantize_len_any();
                                let ds = spec_sparse_deltas(
                                    vector@,
                                    base_vector@,
                                    compressor.spec_config().sparsity_threshold as int,
                                    vector@.len() as int,
                                );
                                assert((ds.len() as int) * 100 <= (
                                pre.config.max_density as int) * (
                                pre.dimensions as int)) by (nonlinear_arith)
                                    requires
                                        ds.len() * 100 <= (pre.config.max_density as int)
                                            * (vector@.len() as int),
                                        vector@.len() == pre.dimensions,
                                ;
                                assert(entry_ok(
                                    pre.config,
                                    pre.dimensions as int,
                                    id,
                                    gentry,
                                    store_ids(pre),
                                ));
                            }
                            self.vectors.push((id, entry));
                            proof {
                                lemma_store_push(pre, *self, id, gentry);
                                assert(!sa_spec);
                                assert(store_model(*self) == store_model(
                                    *old(self),
                                ).push((id, gentry)));
                                assert(store_model(*self).last().1 == gentry);
                                assert(store_anchors(*self) == store_anchors(
                                    *old(self),
                                ));
                            }
                            return true;
                        }
                    }
                }
            }
        }
        // Store as an anchor.
        proof {
            assert(sa_spec);
        }
        let ghost gentry = CompressedVector::Full(vector);
        self.vectors.push((id, CompressedVector::Full(vector)));
        self.anchors.push(id);
        proof {
            lemma_store_push(pre, *self, id, gentry);
            assert(store_model(*self) == store_model(*old(self)).push((id, gentry)));
            assert(store_model(*self).last().1 == gentry);
            assert(store_anchors(*self) == store_anchors(*old(self)).push(id));
        }
        true
    }
}

/// The invariant one stored entry must satisfy: a full entry is a valid
/// vector of the store's dimension; a delta form names an earlier,
/// present id as its base and respects the density bound.
pub open spec fn entry_ok(
    cfg: CompressionConfig,
    dims: int,
    owner: u64,
    e: CompressedVector,
    ids: Seq<u64>,
) -> bool {
    match e {
        CompressedVector::Full(v) => vec_ok(v@) && v@.len() == dims,
        CompressedVector::Delta { base_id, deltas, .. } => {
            &&& base_id < owner
            &&& (exists|j: int| 0 <= j < ids.len() && ids[j] == base_id)
            &&& deltas@.len() * 100 <= cfg.max_density * dims
            &&& deltas@.len() <= DIM_LIMIT
        },
        CompressedVector::QuantizedDelta { base_id, deltas, scale, .. } => {
            &&& base_id < owner
            &&& (exists|j: int| 0 <= j < ids.len() && ids[j] == base_id)
            &&& deltas@.len() * 100 <= cfg.max_density * dims
            &&& deltas@.len() <= DIM_LIMIT
            &&& scale >= 1
        },
    }
}

/// The sparse delta list has at most one entry per component.
pub proof fn lemma_sparse_deltas_len(v: Seq<i64>, b: Seq<i64>, thr: int, n: int)
    requires
        0 <= n,
    ensures
        spec_sparse_deltas(v, b, thr, n).len() <= n,
    decreases n,
{
    if n > 0 {
        lemma_sparse_deltas_len(v, b, thr, n - 1);
    }
}

/// Quantising never lengthens a delta list.
pub proof fn lemma_quantize_len_any()
    ensures
        forall|ds: Seq<(u16, i64)>, s: int| #[trigger] spec_quantize(ds, s).len()
            <= ds.len(),
{
    assert forall|ds: Seq<(u16, i64)>, s: int| #[trigger] spec_quantize(ds, s).len()
        <= ds.len() by {
        lemma_quantize_len(ds, s);
    }
}

proof fn lemma_quantize_len(ds: Seq<(u16, i64)>, s: int)
    ensures
        spec_quantize(ds, s).len() <= ds.len(),
    decreases ds.len(),
{
    if ds.len() > 0 {
        lemma_quantize_len(ds.drop_last(), s);
    }
}

/// Pushing an entry that satisfies the invariant (with an id above all
/// stored ids) preserves the store's invariant.
proof fn lemma_store_push(
    pre: CompressedVectorStore,
    post: CompressedVectorStore,
    id: u64,
    entry: CompressedVector,
)
    requires
        pre.wf(),
        post.config == pre.config,
        post.dimensions == pre.dimensions,
        post.vectors@ == pre.vectors@.push((id, entry)),
        forall|j: int| 0 <= j < store_ids(pre).len() ==> store_ids(pre)[j] < id,
        entry_ok(pre.config, pre.dimensions as int, id, entry, store_ids(pre)),
    ensures
        post.wf(),
        store_ids(post) == store_ids(pre).push(id),
        store_has(post, id),
        forall|x: u64| store_has(pre, x) ==> store_has(post, x),
    decreases 0int,
{
    assert(store_ids(post) =~= store_ids(pre).push(id));
    assert forall|x: u64| store_has(pre, x) implies store_has(post, x) by {
        let j = choose|j: int| 0 <= j < store_ids(pre).len() && store_ids(pre)[j] == x;
        assert(store_ids(post)[j] == x);
    }
    assert(store_ids(post)[store_ids(post).len() - 1] == id);
    assert forall|i: int, j: int| 0 <= i < j < post.vectors@.len() implies (
    #[trigger] post.vectors@[i]).0 != (#[trigger] post.vectors@[j]).0 by {
        if j < post.vectors@.len() - 1 {
            assert(post.vectors@[i] == pre.vectors@[i]);
            assert(post.vectors@[j] == pre.vectors@[j]);
        } else {
            assert(post.vectors@[i] == pre.vectors@[i]);
            assert(store_ids(pre)[i] == pre.vectors@[i].0);
        }
    }
    assert forall|j: int| 0 <= j < post.vectors@.len() implies entry_ok(
        post.config,
        post.dimensions as int,
        (#[trigger] post.vectors@[j]).0,
        post.vectors@[j].1,
        store_ids(post),
    ) by {
        if j < post.vectors@.len() - 1 {
            assert(post.vectors@[j] == pre.vectors@[j]);
            assert(entry_ok(
                pre.config,
                pre.dimensions as int,
                pre.vectors@[j].0,
                pre.vectors@[j].1,
                store_ids(pre),
            ));
            match pre.vectors@[j].1 {
                CompressedVector::Delta { base_id, .. } => {
                    let t = choose|t: int|
                        0 <= t < store_ids(pre).len() && store_ids(pre)[t] == base_id;
                    assert(store_ids(post)[t] == base_id);
                },
                CompressedVector::QuantizedDelta { base_id, .. } => {
                    let t = choose|t: int|
                        0 <= t < store_ids(pre).len() && store_ids(pre)[t] == base_id;
                    assert(store_ids(post)[t] == base_id);
                },
                _ => {},
            }
        } else {
            assert(post.vectors@[j] == (id, entry));
            match entry {
                CompressedVector::Delta { base_id, .. } => {
                    let t = choose|t: int|
                        0 <= t < store_ids(pre).len() && store_ids(pre)[t] == base_id;
                    assert(store_ids(post)[t] == base_id);
                },
                CompressedVector::QuantizedDelta { base_id, .. } => {
                    let t = choose|t: int|
                        0 <= t < store_ids(pre).len() && store_ids(pre)[t] == base_id;
                    assert(store_ids(post)[t] == base_id);
                },
                _ => {},
            }
        }
    }
}

/// Applying deltas never changes the length.
pub proof fn lemma_apply_deltas_len(blen: nat, ds: Seq<(u16, i64)>)
    ensures
        forall|b: Seq<i64>|
            b.len() == blen ==> #[trigger] spec_apply_deltas(b, ds).len() == blen,
    decreases ds.len(),
{
    if ds.len() > 0 {
        lemma_apply_deltas_len(blen, ds.drop_last());
        assert forall|b: Seq<i64>| b.len() == blen implies #[trigger] spec_apply_deltas(
            b,
            ds,
        ).len() == blen by {
            assert(spec_apply_deltas(b, ds.drop_last()).len() == blen);
        }
    }
}

/// Applying quantised deltas never changes the length.
pub proof fn lemma_apply_quantized_len(blen: nat, ds: Seq<(u16, i8)>, scale: int)
    ensures
        forall|b: Seq<i64>|
            b.len() == blen ==> #[trigger] spec_apply_quantized(b, ds, scale).len()
                == blen,
    decreases ds.len(),
{
    if ds.len() > 0 {
        lemma_apply_quantized_len(blen, ds.drop_last(), scale);
        assert forall|b: Seq<i64>|
            b.len() == blen implies #[trigger] spec_apply_quantized(
            b,
            ds,
            scale,
        ).len() == blen by {
            assert(spec_apply_quantized(b, ds.drop_last(), scale).len() == blen);
        }
    }
}

/// Whether every coordinate of a vector is within the fixed-point
/// range.
pub fn vec_ok_exec(v: &Vec<i64>) -> (r: bool)
    ensures
        r == vec_ok(v@),
{
    if v.len() > DIM_LIMIT {
        return false;
    }
    let mut k: usize = 0;
    while k < v.len()
        invariant
            v@.len() <= DIM_LIMIT,
            k <= v@.len(),
            forall|i: int| 0 <= i < k ==> -COORD_LIMIT <= #[trigger] v@[i] <= COORD_LIMIT,
        decreases v@.len() - k,
    {
        if v[k] > COORD_LIMIT || v[k] < -COORD_LIMIT {
            return false;
        }
        k = k + 1;
    }
    true
}


impl CompressedVectorStore {
    /// Removes a vector.  An anchor that other entries depend on is not
    /// removed; the call then returns false and changes nothing.
    pub fn remove(&mut self, id: u64) -> (r: bool)
        requires
            old(self).wf(),
        ensures
            final(self).wf(),
            final(self).spec_dims() == old(self).spec_dims(),
            final(self).spec_total() == old(self).spec_total(),
            r == (store_has(*old(self), id) && store_dep_free(*old(self), id)),
            r ==> !store_has(*final(self), id) && (exists|i: int|
                0 <= i < store_model(*old(self)).len() && (#[trigger] store_model(
                    *old(self),
                )[i]).0 == id && store_model(*final(self)) == store_model(
                    *old(self),
                ).remove(i)),
            !r ==> *final(self) == *old(self),
    {
        // A dependent is any entry whose base is this id.
        let mut k: usize = 0;
        while k < self.vectors.len()
            invariant
                self.wf(),
                self == old(self),
                k <= self.vectors@.len(),
                forall|j: int|
                    0 <= j < k ==> match (#[trigger] self.vectors@[j]).1 {
                        CompressedVector::Delta { base_id, .. } => base_id != id,
                        CompressedVector::QuantizedDelta { base_id, .. } => base_id != id,
                        _ => true,
                    },
            decreases self.vectors@.len() - k,
        {
            let dependent = match &self.vectors[k].1 {
                CompressedVector::Full(_) => false,
                CompressedVector::Delta { base_id, .. } => *base_id == id,
                CompressedVector::QuantizedDelta { base_id, .. } => *base_id == id,
            };
            if dependent {
                proof {
                    let j = k as int;
                    assert(match store_model(*self)[j].1 {
                        CompressedVector::Delta { base_id, .. } => base_id == id,
                        CompressedVector::QuantizedDelta { base_id, .. } => base_id
                            == id,
                        CompressedVector::Full(_) => false,
                    });
                    assert(!store_dep_free(*self, id));
                }
                return false;
            }
            k = k + 1;
        }
        proof {
            assert(store_dep_free(*self, id));
        }
        let i = match self.find_entry(id) {
            Option::Some(i) => i,
            Option::None => {
                return false;
            },
        };
        proof {
            assert(store_ids(*self)[i as int] == id);
        }
        let ghost pre = *self;
        self.vectors.remove(i);
        // Drop the anchor mark, if there was one.
        let mut a: usize = 0;
        while a < self.anchors.len()
            invariant
                self.vectors@ == pre.vectors@.remove(i as int),
                self.config == pre.config,
                self.dimensions == pre.dimensions,
                self.total_count == pre.total_count,
            decreases self.anchors@.len() - a,
        {
            if self.anchors[a] == id {
                self.anchors.remove(a);
                break;
            }
            a = a + 1;
        }
        proof {
            lemma_store_remove(pre, *self, i as int, id);
            assert(0 <= (i as int) && (i as int) < store_model(pre).len()
                && store_model(pre)[i as int].0 == id && store_model(*self)
                == store_model(pre).remove(i as int));
        }
        true
    }

    /// Storage statistics: entry counts, byte costs in the packed form,
    /// and the saving as a percentage.
    pub fn stats(&self) -> (r: CompressionStats)
        requires
            self.wf(),
        ensures
            ({
                let m = store_model(*self);
                let total = m.len() as int;
                let anchors = store_anchors(*self).len() as int;
                let ac = if anchors <= total {
                    anchors
                } else {
                    total
                };
                let cb = sat_usize(spec_sum_bytes(m));
                let ub = sat_usize(total * self.spec_dims() * 4);
                let ab = sat_usize(ac * (self.spec_dims() * 4 + 8));
                &&& r.total_vectors == total
                &&& r.anchor_count == ac
                &&& r.delta_count == total - ac
                &&& r.compressed_bytes == cb
                &&& r.uncompressed_bytes == ub
                &&& r.compression_ratio == (if ub > 0 && cb <= ub && cb <= u64::MAX
                    / 100 {
                    100 - cb * 100 / ub
                } else {
                    0
                })
                &&& r.avg_delta_size == (if total - ac > 0 && cb > ab {
                    (cb - ab) / (total - ac)
                } else {
                    0
                })
            }),
    {
        let total_vectors = self.vectors.len();
        let anchor_count = if self.anchors.len() <= total_vectors {
            self.anchors.len()
        } else {
            total_vectors
        };
        let delta_count = total_vectors - anchor_count;
        let ghost m = store_model(*self);
        let mut compressed_bytes: usize = 0;
        let mut k: usize = 0;
        while k < self.vectors.len()
            invariant
                self.wf(),
                k <= self.vectors@.len(),
                m == store_model(*self),
                compressed_bytes as int == sat_usize(spec_sum_bytes(m.take(k as int))),
            decreases self.vectors@.len() - k,
        {
            let ghost j = k as int;
            proof {
                assert(entry_ok(
                    self.config,
                    self.dimensions as int,
                    self.vectors@[j].0,
                    self.vectors@[j].1,
                    store_ids(*self),
                ));
            }
            let cost = self.vectors[k].1.storage_bytes();
            proof {
                assert(m.take(k as int + 1).drop_last() =~= m.take(k as int));
                assert(m.take(k as int + 1).last() == m[k as int]);
                assert(cost as int == spec_storage_bytes(m[k as int].1));
            }
            compressed_bytes = match compressed_bytes.checked_add(cost) {
                Option::Some(s) => s,
                Option::None => usize::MAX,
            };
            k = k + 1;
        }
        proof {
            assert(m.take(self.vectors@.len() as int) =~= m);
        }
        let per_vec = match self.dimensions.checked_mul(4) {
            Option::Some(p) => p,
            Option::None => usize::MAX,
        };
        let uncompressed_bytes = match total_vectors.checked_mul(per_vec) {
            Option::Some(u) => u,
            Option::None => usize::MAX,
        };
        proof {
            assert((total_vectors as int) * (per_vec as int) == (total_vectors as int)
                * (self.dimensions as int) * 4) by (nonlinear_arith)
                requires
                    per_vec as int == (self.dimensions as int) * 4,
            ;
            assert(uncompressed_bytes as int == sat_usize(
                (total_vectors as int) * (self.dimensions as int) * 4,
            ));
        }
        let compression_ratio: u64 = if uncompressed_bytes > 0 && compressed_bytes
            <= uncompressed_bytes && (compressed_bytes as u64) <= 0xffff_ffff_ffff_ffffu64
            / 100 {
            proof {
                assert((compressed_bytes as int) * 100 <= u64::MAX) by (nonlinear_arith)
                    requires
                        compressed_bytes as int <= u64::MAX as int / 100,
                ;
            }
            let pct = (compressed_bytes as u64) * 100 / (uncompressed_bytes as u64);
            proof {
                vstd::arithmetic::div_mod::lemma_div_is_ordered(
                    (compressed_bytes as int) * 100,
                    (uncompressed_bytes as int) * 100,
                    uncompressed_bytes as int,
                );
                vstd::arithmetic::div_mod::lemma_div_multiples_vanish(
                    100,
                    uncompressed_bytes as int,
                );
                assert((compressed_bytes as int) * 100 <= (uncompressed_bytes as int)
                    * 100) by (nonlinear_arith)
                    requires
                        compressed_bytes <= uncompressed_bytes,
                ;
                assert(pct <= 100);
            }
            if pct <= 100 {
                100 - pct
            } else {
                0
            }
        } else {
            0
        };
        let avg_delta_size: usize = if delta_count > 0 {
            let anchor_bytes = match anchor_count.checked_mul(
                match self.dimensions.checked_mul(4) {
                    Option::Some(x) => match x.checked_add(8) {
                        Option::Some(y) => y,
                        Option::None => usize::MAX,
                    },
                    Option::None => usize::MAX,
                },
            ) {
                Option::Some(x) => x,
                Option::None => usize::MAX,
            };
            if compressed_bytes > anchor_bytes {
                (compressed_bytes - anchor_bytes) / delta_count
            } else {
                0
            }
        } else {
            0
        };
        CompressionStats {
            total_vectors,
            anchor_count,
            delta_count,
            compressed_bytes,
            uncompressed_bytes,
            compression_ratio,
            avg_delta_size,
        }
    }
}

/// Removing an entry on which nothing depends preserves the invariant.
proof fn lemma_store_remove(
    pre: CompressedVectorStore,
    post: CompressedVectorStore,
    i: int,
    id: u64,
)
    requires
        pre.wf(),
        0 <= i < pre.vectors@.len(),
        pre.vectors@[i].0 == id,
        post.config == pre.config,
        post.dimensions == pre.dimensions,
        post.vectors@ == pre.vectors@.remove(i),
        forall|j: int|
            0 <= j < pre.vectors@.len() ==> match (#[trigger] pre.vectors@[j]).1 {
                CompressedVector::Delta { base_id, .. } => base_id != id,
                CompressedVector::QuantizedDelta { base_id, .. } => base_id != id,
                _ => true,
            },
    ensures
        post.wf(),
        !store_has(post, id),
{
    assert forall|a: int, b: int| 0 <= a < b < post.vectors@.len() implies (
    #[trigger] post.vectors@[a]).0 != (#[trigger] post.vectors@[b]).0 by {
        let a2: int = if a < i {
            a
        } else {
            a + 1
        };
        let b2: int = if b < i {
            b
        } else {
            b + 1
        };
        assert(post.vectors@[a] == pre.vectors@[a2]);
        assert(post.vectors@[b] == pre.vectors@[b2]);
    }
    assert forall|j: int| 0 <= j < store_ids(post).len() implies store_ids(post)[j]
        != id by {
        let j2: int = if j < i {
            j
        } else {
            j + 1
        };
        assert(store_ids(post)[j] == pre.vectors@[j2].0);
        assert(store_ids(pre)[j2] == pre.vectors@[j2].0);
        if pre.vectors@[j2].0 == id {
            if j2 < i {
                assert(store_ids(pre)[j2] != store_ids(pre)[i]);
            } else {
                assert(store_ids(pre)[i] != store_ids(pre)[j2]);
            }
        }
    }
    assert forall|j: int| 0 <= j < post.vectors@.len() implies entry_ok(
        post.config,
        post.dimensions as int,
        (#[trigger] post.vectors@[j]).0,
        post.vectors@[j].1,
        store_ids(post),
    ) by {
        let j2: int = if j < i {
            j
        } else {
            j + 1
        };
        assert(post.vectors@[j] == pre.vectors@[j2]);
        assert(entry_ok(
            pre.config,
            pre.dimensions as int,
            pre.vectors@[j2].0,
            pre.vectors@[j2].1,
            store_ids(pre),
        ));
        match pre.vectors@[j2].1 {
            CompressedVector::Delta { base_id, .. } => {
                let t = choose|t: int|
                    0 <= t < store_ids(pre).len() && store_ids(pre)[t] == base_id;
                let t2: int = if t < i {
                    t
                } else {
                    t - 1
                };
                assert(t != i);
                assert(store_ids(post)[t2] == base_id);
            },
            CompressedVector::QuantizedDelta { base_id, .. } => {
                let t = choose|t: int|
                    0 <= t < store_ids(pre).len() && store_ids(pre)[t] == base_id;
                let t2: int = if t < i {
                    t
                } else {
                    t - 1
                };
                assert(t != i);
                assert(store_ids(post)[t2] == base_id);
            },
            _ => {},
        }
    }
}

} // verus!
