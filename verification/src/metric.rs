//! The metrics of an index, the distance functions that go with them, and the
//! rules that keep a computed distance usable.
//!
//! A vector component and a finished distance are single-precision numbers,
//! held as their IEEE 754 bit patterns in a `u32`; the intermediate results of a
//! distance are double-precision numbers, held as bit patterns in a `u64`.

use crate::laws::{law_cosine_distance, law_inner_product_distance};
use crate::narrow::{is_nearest, narrow};
use hnsw_rs::prelude::DistFn;
use vstd::prelude::*;

verus! {

/// The bit that holds the sign of a double-precision number.
pub const SIGN_F64: u64 = 0x8000_0000_0000_0000;

/// The double-precision pattern of positive infinity.
pub const INFINITY_F64: u64 = 0x7ff0_0000_0000_0000;

/// The double-precision pattern of one.
pub const ONE_F64: u64 = 0x3ff0_0000_0000_0000;

/// The single-precision pattern of negative zero.
pub const NEGATIVE_ZERO_F32: u32 = 0x8000_0000;

/// The single-precision pattern of positive infinity.
pub const INFINITY_F32: u32 = 0x7f80_0000;

/// The pattern without its sign: it grows with the absolute value of the number.
pub open spec fn magnitude(bits: u64) -> int {
    if bits >= SIGN_F64 {
        bits - SIGN_F64
    } else {
        bits as int
    }
}

/// The pattern is that of a number, neither infinite nor NaN.
pub open spec fn is_finite(bits: u64) -> bool {
    magnitude(bits) < INFINITY_F64
}

/// The pattern is a NaN.
pub open spec fn is_nan(bits: u64) -> bool {
    magnitude(bits) > INFINITY_F64
}

/// The pattern has its sign bit set.
pub open spec fn is_signed(bits: u64) -> bool {
    bits >= SIGN_F64
}

/// The pattern compares as less than or equal to zero, which no NaN does.
pub open spec fn is_at_most_zero(bits: u64) -> bool {
    !is_nan(bits) && (is_signed(bits) || bits == 0)
}

/// What becomes of a computed distance: one where it is infinite or NaN, zero
/// where it came out negative, and the distance itself otherwise.
pub open spec fn clamped(dist: u64) -> u64 {
    if !is_finite(dist) {
        ONE_F64
    } else if is_signed(dist) {
        0
    } else {
        dist
    }
}

/// What becomes of a cosine distance that was computed for two vectors with the
/// given squared norms: one where a vector has no length.
pub open spec fn cosine_clamped(norm_a: u64, norm_b: u64, dist: u64) -> u64 {
    if is_at_most_zero(norm_a) || is_at_most_zero(norm_b) {
        ONE_F64
    } else {
        clamped(dist)
    }
}

/// The single-precision pattern is that of a distance: neither NaN nor less
/// than zero. Negative zero and infinity are distances.
pub open spec fn is_distance(bits: u32) -> bool {
    bits <= INFINITY_F32 || bits == NEGATIVE_ZERO_F32
}

/// The number by which the pattern of a distance is ordered: distances compare
/// as their ranks do.
pub open spec fn distance_rank(bits: u32) -> int {
    if bits == NEGATIVE_ZERO_F32 {
        0
    } else {
        bits as int
    }
}

/// Whether a single-precision pattern is that of a distance.
pub fn usable_distance(bits: u32) -> (usable: bool)
    ensures
        usable == is_distance(bits),
        usable <==> bits <= 0x7f80_0000 || bits == 0x8000_0000,
{
    bits <= INFINITY_F32 || bits == NEGATIVE_ZERO_F32
}

fn finite(bits: u64) -> (r: bool)
    ensures
        r == is_finite(bits),
{
    if bits >= SIGN_F64 {
        bits - SIGN_F64 < INFINITY_F64
    } else {
        bits < INFINITY_F64
    }
}

fn at_most_zero(bits: u64) -> (r: bool)
    ensures
        r == is_at_most_zero(bits),
{
    if bits >= SIGN_F64 {
        bits - SIGN_F64 <= INFINITY_F64
    } else {
        bits == 0
    }
}

fn clamp(dist: u64) -> (r: u64)
    ensures
        r == clamped(dist),
{
    if !finite(dist) {
        ONE_F64
    } else if dist >= SIGN_F64 {
        0
    } else {
        dist
    }
}

/// Distance metric for vector search.
#[derive(Debug, Clone, Copy, PartialEq, Eq, Structural)]
pub enum DistanceMetric {
    /// L2 (Euclidean) distance
    L2,
    /// Cosine similarity
    Cosine,
    /// Inner product
    InnerProduct,
}

/// Cosine distance: `1 - (a . b) / (||a|| * ||b||)`.
#[derive(Clone, Copy, Debug, Default)]
pub struct CosineDistance;

impl CosineDistance {
    /// The distance to report for two vectors with the squared norms `norm_a` and
    /// `norm_b`, where the formula gave `dist`.
    ///
    /// The norms and the computed distance are double-precision patterns; the result
    /// is the single-precision pattern nearest to what is reported. A vector without
    /// length is at distance one from every vector. Rounding can take the distance of
    /// two nearly parallel vectors below zero, which then counts as zero; components
    /// that are not finite can leave no number at all, which counts as one.
    pub fn resolve(&self, norm_a: u64, norm_b: u64, dist: u64) -> (r: u32)
        ensures
            is_nearest(r, cosine_clamped(norm_a, norm_b, dist)),
            norm_a == 0 || norm_b == 0 ==> r == 0x3f80_0000,
            0 < norm_a <= 0x7ff0_0000_0000_0000 && 0 < norm_b <= 0x7ff0_0000_0000_0000 ==> {
                &&& dist < 0x7ff0_0000_0000_0000 ==> is_nearest(r, dist)
                &&& 0x8000_0000_0000_0000 <= dist < 0xfff0_0000_0000_0000 ==> r == 0
                &&& (dist / 0x10_0000_0000_0000) % 0x800 == 0x7ff ==> r == 0x3f80_0000
            },
    {
        if at_most_zero(norm_a) || at_most_zero(norm_b) {
            let r: u32 = narrow(ONE_F64);
            proof {
                law_cosine_distance(r, norm_a, norm_b, dist);
            }
            return r;
        }
        let r: u32 = narrow(clamp(dist));
        proof {
            law_cosine_distance(r, norm_a, norm_b, dist);
        }
        r
    }
}

/// Inner-product distance: `1 - a . b`.
#[derive(Clone, Copy, Debug, Default)]
pub struct InnerProductDistance;

impl InnerProductDistance {
    /// The distance to report where the formula gave `dist`: one where that is no
    /// finite number, zero where it is negative, in single precision.
    pub fn resolve(&self, dist: u64) -> (r: u32)
        ensures
            is_nearest(r, clamped(dist)),
            dist < 0x7ff0_0000_0000_0000 ==> is_nearest(r, dist),
            0x8000_0000_0000_0000 <= dist < 0xfff0_0000_0000_0000 ==> r == 0,
            (dist / 0x10_0000_0000_0000) % 0x800 == 0x7ff ==> r == 0x3f80_0000,
    {
        let r: u32 = narrow(clamp(dist));
        proof {
            law_inner_product_distance(r, dist);
        }
        r
    }
}

/// The declaration of the outside type `DistFn`, a boxed distance function. A
/// value of it is only carried: nothing is known of its inside.
#[verifier::external_type_specification]
#[verifier::external_body]
#[verifier::reject_recursive_types(T)]
pub struct ExDistFn<T: Copy + Clone + Sized + Send + Sync>(DistFn<T>);

/// A distance function for each metric, over vectors of single-precision
/// patterns. What an index measures by has to meet `obeys_distance_model`.
pub struct Distances {
    pub cosine: DistFn<u32>,
    pub l2: DistFn<u32>,
    pub inner_product: DistFn<u32>,
}

impl Distances {
    /// The distance function of a metric.
    pub open spec fn of(self, metric: DistanceMetric) -> DistFn<u32> {
        match metric {
            DistanceMetric::Cosine => self.cosine,
            DistanceMetric::L2 => self.l2,
            DistanceMetric::InnerProduct => self.inner_product,
        }
    }

    /// The distance function of a metric.
    pub fn get(&self, metric: DistanceMetric) -> (distance: &DistFn<u32>)
        ensures
            *distance == self.of(metric),
            metric is Cosine ==> *distance == self.cosine,
            metric is L2 ==> *distance == self.l2,
            metric is InnerProduct ==> *distance == self.inner_product,
    {
        match metric {
            DistanceMetric::Cosine => &self.cosine,
            DistanceMetric::L2 => &self.l2,
            DistanceMetric::InnerProduct => &self.inner_product,
        }
    }
}

} // verus!
