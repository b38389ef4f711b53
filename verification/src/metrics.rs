use crate::error::Error;
use std::cmp::Ordering;
use vstd::prelude::*;

verus! {

/// Metric used to score vectors during search.
#[derive(Debug, Clone, Copy, PartialEq, Eq, Structural, Hash)]
pub enum Metric {
    /// Cosine similarity. Higher scores are better.
    Cosine,
    /// Dot product similarity. Higher scores are better.
    Dot,
    /// Squared Euclidean distance. Lower scores are better.
    SquaredL2,
}

/// The byte that identifies a metric in a snapshot.
pub open spec fn metric_id(metric: Metric) -> u8 {
    match metric {
        Metric::Cosine => 1,
        Metric::Dot => 2,
        Metric::SquaredL2 => 3,
    }
}

/// The metric that a snapshot byte identifies, if any.
pub open spec fn metric_from_id(value: u8) -> Option<Metric> {
    if value == 1 {
        Some(Metric::Cosine)
    } else if value == 2 {
        Some(Metric::Dot)
    } else if value == 3 {
        Some(Metric::SquaredL2)
    } else {
        None
    }
}

/// True for metrics where a higher score is a better match.
pub open spec fn higher_is_better(metric: Metric) -> bool {
    metric != Metric::SquaredL2
}

/// An IEEE-754 single-precision pattern is finite unless its exponent bits are all ones
/// (infinities and NaNs).
pub open spec fn is_finite_bits(bits: u32) -> bool {
    bits & 0x7f80_0000u32 != 0x7f80_0000u32
}

/// An IEEE-754 single-precision pattern equals zero when all bits but the sign are clear
/// (`+0.0` and `-0.0`).
pub open spec fn is_zero_bits(bits: u32) -> bool {
    bits & 0x7fff_ffffu32 == 0
}

/// True when every value of the vector is finite.
pub open spec fn all_finite(values: Seq<u32>) -> bool {
    forall|i: int| 0 <= i < values.len() ==> is_finite_bits(#[trigger] values[i])
}

/// True when every value of the vector equals zero.
pub open spec fn all_zero(values: Seq<u32>) -> bool {
    forall|i: int| 0 <= i < values.len() ==> is_zero_bits(#[trigger] values[i])
}

/// A vector may be stored or queried under `metric`: all of its values are finite, and
/// under cosine similarity it is not the zero vector.
pub open spec fn valid_vector(metric: Metric, values: Seq<u32>) -> bool {
    all_finite(values) && !(metric == Metric::Cosine && all_zero(values))
}

/// The error with which an invalid vector is rejected.
pub open spec fn vector_error(metric: Metric, values: Seq<u32>) -> Error {
    if !all_finite(values) {
        Error::NonFiniteValue
    } else {
        Error::ZeroVectorForCosine
    }
}

/// The position of a single-precision pattern in IEEE-754 `totalOrder`, as computed by
/// `f32::total_cmp`: negative patterns have all bits flipped, positive ones the sign bit
/// set, and the results compare as unsigned integers (`-NaN < -inf < ... < -0.0 < +0.0 <
/// ... < +inf < +NaN`).
pub open spec fn total_order_key(bits: u32) -> u32 {
    if bits >= 0x8000_0000u32 {
        (0xffff_ffffu32 - bits) as u32
    } else {
        (bits + 0x8000_0000u32) as u32
    }
}

/// Score `a` is a strictly better match than score `b` under `metric`, in total order.
pub open spec fn score_better(metric: Metric, a: u32, b: u32) -> bool {
    if higher_is_better(metric) {
        total_order_key(a) > total_order_key(b)
    } else {
        total_order_key(a) < total_order_key(b)
    }
}

/// Distinct patterns have distinct total-order positions.
pub proof fn lemma_total_order_key_injective(a: u32, b: u32)
    ensures
        total_order_key(a) == total_order_key(b) <==> a == b,
{
}

/// IEEE-754 total order on patterns: non-negative patterns (sign bit clear)
/// order as their unsigned values, negative patterns in reverse, and every
/// negative pattern comes before every non-negative one.
pub proof fn law_total_order(a: u32, b: u32)
    ensures
        a < 0x8000_0000 && b < 0x8000_0000 ==> (total_order_key(a) < total_order_key(b) <==> a < b),
        a >= 0x8000_0000 && b >= 0x8000_0000 ==> (total_order_key(a) < total_order_key(b) <==> a
            > b),
        a >= 0x8000_0000 && b < 0x8000_0000 ==> total_order_key(a) < total_order_key(b),
{
}

/// Scores rank by value: under cosine and dot product a higher score is
/// strictly better, under squared L2 a lower one, both in IEEE-754 total order
/// (non-negative patterns by their unsigned value, negative ones reversed, every
/// negative pattern below every non-negative one); no score beats itself.
pub proof fn law_score_order(metric: Metric, a: u32, b: u32)
    ensures
        metric != Metric::SquaredL2 ==> (a < 0x8000_0000 && b < 0x8000_0000 ==> (score_better(
            metric,
            a,
            b,
        ) <==> a > b)),
        metric != Metric::SquaredL2 ==> (a >= 0x8000_0000 && b >= 0x8000_0000 ==> (score_better(
            metric,
            a,
            b,
        ) <==> a < b)),
        metric != Metric::SquaredL2 ==> (a < 0x8000_0000 && b >= 0x8000_0000 ==> score_better(
            metric,
            a,
            b,
        ) && !score_better(metric, b, a)),
        metric == Metric::SquaredL2 ==> (a < 0x8000_0000 && b < 0x8000_0000 ==> (score_better(
            metric,
            a,
            b,
        ) <==> a < b)),
        metric == Metric::SquaredL2 ==> (a >= 0x8000_0000 && b >= 0x8000_0000 ==> (score_better(
            metric,
            a,
            b,
        ) <==> a > b)),
        metric == Metric::SquaredL2 ==> (a >= 0x8000_0000 && b < 0x8000_0000 ==> score_better(
            metric,
            a,
            b,
        ) && !score_better(metric, b, a)),
        !score_better(metric, a, a),
{
    law_total_order(a, b);
    law_total_order(b, a);
}

/// Finiteness looks at the magnitude only: a pattern is finite exactly when,
/// with the sign bit cleared, it lies below the pattern of infinity
/// (`0x7f80_0000`), whatever its sign.
pub proof fn law_finite(bits: u32)
    ensures
        is_finite_bits(bits) <==> bits % 0x8000_0000 < 0x7f80_0000,
{
    assert((bits & 0x7f80_0000u32 != 0x7f80_0000u32) <==> (bits % 0x8000_0000 < 0x7f80_0000))
        by (bit_vector);
}

/// The zero test accepts exactly the two zeros, `+0.0` (`0`) and `-0.0`
/// (`0x8000_0000`).
pub proof fn law_zero(bits: u32)
    ensures
        is_zero_bits(bits) <==> (bits == 0 || bits == 0x8000_0000),
{
    assert((bits & 0x7fff_ffffu32 == 0) <==> (bits == 0 || bits == 0x8000_0000u32)) by (bit_vector);
}

/// A vector is the zero vector exactly when each of its values is `+0.0` or
/// `-0.0`.
pub proof fn law_all_zero(values: Seq<u32>)
    ensures
        all_zero(values) <==> forall|i: int|
            0 <= i < values.len() ==> (#[trigger] values[i] == 0 || values[i] == 0x8000_0000),
{
    assert forall|i: int| 0 <= i < values.len() implies (is_zero_bits(#[trigger] values[i]) <==> (
    values[i] == 0 || values[i] == 0x8000_0000)) by {
        law_zero(values[i]);
    }
}

/// What validation accepts: every value of finite magnitude and, under cosine
/// similarity, some value that is neither zero.
pub proof fn law_valid_vector(metric: Metric, values: Seq<u32>)
    ensures
        valid_vector(metric, values) <==> ((forall|i: int|
            0 <= i < values.len() ==> #[trigger] values[i] % 0x8000_0000 < 0x7f80_0000) && (
        metric == Metric::Cosine ==> exists|i: int|
            0 <= i < values.len() && #[trigger] values[i] != 0 && values[i] != 0x8000_0000)),
{
    assert forall|i: int| 0 <= i < values.len() implies (is_finite_bits(#[trigger] values[i])
        <==> values[i] % 0x8000_0000 < 0x7f80_0000) && (is_zero_bits(values[i]) <==> (values[i]
        == 0 || values[i] == 0x8000_0000)) by {
        law_finite(values[i]);
        law_zero(values[i]);
    }
}

/// Which error an invalid vector gets: `NonFiniteValue` when some value has an
/// infinite or NaN magnitude, otherwise (a cosine vector of zeros)
/// `ZeroVectorForCosine`.
pub proof fn law_vector_error(metric: Metric, values: Seq<u32>)
    requires
        !valid_vector(metric, values),
    ensures
        (exists|i: int| 0 <= i < values.len() && #[trigger] values[i] % 0x8000_0000 >= 0x7f80_0000)
            ==> vector_error(metric, values) == Error::NonFiniteValue,
        !(exists|i: int|
            0 <= i < values.len() && #[trigger] values[i] % 0x8000_0000 >= 0x7f80_0000) ==> metric
            == Metric::Cosine && vector_error(metric, values) == Error::ZeroVectorForCosine,
{
    assert forall|i: int| 0 <= i < values.len() implies (is_finite_bits(#[trigger] values[i])
        <==> values[i] % 0x8000_0000 < 0x7f80_0000) by {
        law_finite(values[i]);
    }
}

/// A metric's snapshot byte names that metric.
pub proof fn lemma_metric_id_round_trip(metric: Metric)
    ensures
        metric_from_id(metric_id(metric)) == Some(metric),
{
}

/// A byte names a metric only if it is that metric's byte.
pub proof fn lemma_metric_from_id_inverse(value: u8)
    ensures
        metric_from_id(value) matches Some(m) ==> metric_id(m) == value,
{
}

impl Metric {
    /// The snapshot byte of this metric.
    pub fn to_u8(self) -> (value: u8)
        ensures
            value == metric_id(self),
    {
        match self {
            Metric::Cosine => 1,
            Metric::Dot => 2,
            Metric::SquaredL2 => 3,
        }
    }

    /// The metric that a snapshot byte identifies, or `None` for an unknown byte.
    pub fn from_u8(value: u8) -> (metric: Option<Self>)
        ensures
            metric == metric_from_id(value),
    {
        match value {
            1 => Some(Metric::Cosine),
            2 => Some(Metric::Dot),
            3 => Some(Metric::SquaredL2),
            _ => None,
        }
    }

    /// Orders two scores so that the better match comes first: highest first for cosine
    /// and dot product, lowest first for squared L2, both in IEEE-754 total order.
    pub fn compare_scores(self, a: u32, b: u32) -> (order: Ordering)
        ensures
            (order == Ordering::Less) == score_better(self, a, b),
            (order == Ordering::Equal) == (a == b),
            (order == Ordering::Greater) == score_better(self, b, a),
    {
        let key_a = total_order_position(a);
        let key_b = total_order_position(b);
        proof {
            lemma_total_order_key_injective(a, b);
        }
        let higher_first = match self {
            Metric::Cosine => true,
            Metric::Dot => true,
            Metric::SquaredL2 => false,
        };
        if key_a == key_b {
            Ordering::Equal
        } else if (key_a > key_b) == higher_first {
            Ordering::Less
        } else {
            Ordering::Greater
        }
    }
}

/// The position of a pattern in IEEE-754 total order.
pub fn total_order_position(bits: u32) -> (key: u32)
    ensures
        key == total_order_key(bits),
{
    if bits >= 0x8000_0000u32 {
        0xffff_ffffu32 - bits
    } else {
        bits + 0x8000_0000u32
    }
}

/// Returns true when the pattern is a finite number.
pub fn is_finite(bits: u32) -> (finite: bool)
    ensures
        finite == is_finite_bits(bits),
{
    bits & 0x7f80_0000u32 != 0x7f80_0000u32
}

/// Returns true when every value of the vector equals zero.
pub fn is_zero_vector(values: &[u32]) -> (zero: bool)
    ensures
        zero == all_zero(values@),
{
    let mut i: usize = 0;
    while i < values.len()
        invariant
            0 <= i <= values@.len(),
            forall|j: int| 0 <= j < i ==> is_zero_bits(#[trigger] values@[j]),
        decreases values@.len() - i,
    {
        if values[i] & 0x7fff_ffffu32 != 0 {
            return false;
        }
        i = i + 1;
    }
    true
}

/// Checks that a vector may be stored or queried under `metric`.
pub fn validate_vector(metric: Metric, values: &[u32]) -> (result: Result<(), Error>)
    ensures
        match result {
            Ok(()) => valid_vector(metric, values@),
            Err(e) => !valid_vector(metric, values@) && e == vector_error(metric, values@),
        },
{
    let mut i: usize = 0;
    while i < values.len()
        invariant
            0 <= i <= values@.len(),
            forall|j: int| 0 <= j < i ==> is_finite_bits(#[trigger] values@[j]),
        decreases values@.len() - i,
    {
        if !is_finite(values[i]) {
            return Err(Error::NonFiniteValue);
        }
        i = i + 1;
    }
    if metric == Metric::Cosine && is_zero_vector(values) {
        return Err(Error::ZeroVectorForCosine);
    }
    Ok(())
}

} // verus!
