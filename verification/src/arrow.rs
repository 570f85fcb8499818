//! The numeric kernels of `arrow2` that the composite-key reduction runs on,
//! each behind a contract over plain values.
//!
//! A column goes in as a vector of optional integers, a null being `None`.
//! The kernels compute on every slot, null slots included, and a null slot of
//! an array built from such a vector holds 0: the contracts that forbid
//! overflow therefore speak of every slot, a null one counting as 0.

use arrow2::array::PrimitiveArray;
use arrow2::compute::comparison::{
    eq_scalar, gt_eq_scalar, gt_scalar, lt_eq_scalar, lt_scalar, neq_scalar,
};
use arrow2::scalar::PrimitiveScalar;
use arrow2::compute::aggregate::{max_primitive, min_primitive};
use arrow2::compute::arithmetics::basic::{mul_scalar, sub_scalar};
use arrow2::compute::cast::primitive_to_primitive;
use arrow2::datatypes::DataType;
use vstd::prelude::*;

verus! {

/// What a slot of a signed column holds: the value, or 0 where it is null.
pub open spec fn slot_i64(v: Option<i64>) -> int {
    match v {
        Some(x) => x as int,
        None => 0,
    }
}

/// What a slot of an unsigned column holds: the value, or 0 where it is null.
pub open spec fn slot_u64(v: Option<u64>) -> int {
    match v {
        Some(x) => x as int,
        None => 0,
    }
}

/// The least non-null value of a signed column.
///
/// Calls `arrow2::compute::aggregate::min_primitive`. Trusted: that it
/// returns `None` exactly where no slot is valid, and otherwise a valid value
/// of the column that no valid value is less than.
#[verifier::external_body]
pub(crate) fn arrow_min_i64(values: &Vec<Option<i64>>) -> (m: Option<i64>)
    ensures
        m is None <==> forall|i: int| 0 <= i < values.len() ==> (#[trigger] values[i]) is None,
        m matches Some(x) ==> values@.contains(Some(x)) && forall|i: int|
            0 <= i < values.len() ==> ((#[trigger] values[i]) matches Some(v) ==> x <= v),
{
    min_primitive(&PrimitiveArray::<i64>::from(values))
}

/// The greatest non-null value of an unsigned column.
///
/// Calls `arrow2::compute::aggregate::max_primitive`. Trusted: that it
/// returns `None` exactly where no slot is valid, and otherwise a valid value
/// of the column that no valid value is greater than.
#[verifier::external_body]
pub(crate) fn arrow_max_u64(values: &Vec<Option<u64>>) -> (m: Option<u64>)
    ensures
        m is None <==> forall|i: int| 0 <= i < values.len() ==> (#[trigger] values[i]) is None,
        m matches Some(x) ==> values@.contains(Some(x)) && forall|i: int|
            0 <= i < values.len() ==> ((#[trigger] values[i]) matches Some(v) ==> v <= x),
{
    max_primitive(&PrimitiveArray::<u64>::from(values))
}

/// Subtracts `rhs` from every value of a signed column; nulls stay null.
///
/// Calls `arrow2::compute::arithmetics::basic::sub_scalar`, which subtracts
/// with `-` on every slot and keeps the validity. Trusted: that, where no
/// slot overflows, each valid slot of the result holds the difference.
#[verifier::external_body]
pub(crate) fn arrow_sub_scalar_i64(values: &Vec<Option<i64>>, rhs: i64) -> (out: Vec<Option<i64>>)
    requires
        forall|i: int|
            0 <= i < values.len() ==> i64::MIN <= slot_i64(#[trigger] values[i]) - rhs <= i64::MAX,
    ensures
        out.len() == values.len(),
        forall|i: int|
            0 <= i < values.len() ==> #[trigger] out[i] == match values[i] {
                Some(v) => Some((v - rhs) as i64),
                None => None,
            },
{
    let shifted = sub_scalar(&PrimitiveArray::<i64>::from(values), &rhs);
    shifted.iter().map(|v| v.copied()).collect()
}

/// Casts a signed column to an unsigned one, value by value; nulls stay
/// null, and a negative value becomes null.
///
/// Calls `arrow2::compute::cast::primitive_to_primitive`, which converts each
/// valid value with `num_traits::cast`. Trusted: that this conversion keeps a
/// value that is not negative and gives nothing for one that is.
#[verifier::external_body]
pub(crate) fn arrow_cast_i64_u64(values: &Vec<Option<i64>>) -> (out: Vec<Option<u64>>)
    ensures
        out.len() == values.len(),
        forall|i: int|
            0 <= i < values.len() ==> #[trigger] out[i] == match values[i] {
                Some(v) => if v >= 0 {
                    Some(v as u64)
                } else {
                    None
                },
                None => None,
            },
{
    let cast = primitive_to_primitive::<i64, u64>(
        &PrimitiveArray::<i64>::from(values),
        &DataType::UInt64,
    );
    cast.iter().map(|v| v.copied()).collect()
}

/// Multiplies every value of an unsigned column by `rhs`; nulls stay null.
///
/// Calls `arrow2::compute::arithmetics::basic::mul_scalar`, which multiplies
/// with `*` on every slot and keeps the validity. Trusted: that, where no
/// slot overflows, each valid slot of the result holds the product.
#[verifier::external_body]
pub(crate) fn arrow_mul_scalar_u64(values: &Vec<Option<u64>>, rhs: u64) -> (out: Vec<Option<u64>>)
    requires
        forall|i: int| 0 <= i < values.len() ==> slot_u64(#[trigger] values[i]) * rhs <= u64::MAX,
    ensures
        out.len() == values.len(),
        forall|i: int|
            0 <= i < values.len() ==> #[trigger] out[i] == match values[i] {
                Some(v) => Some((v * rhs) as u64),
                None => None,
            },
{
    let scaled = mul_scalar(&PrimitiveArray::<u64>::from(values), &rhs);
    scaled.iter().map(|v| v.copied()).collect()
}

/// Adds two unsigned columns of one length slot by slot; the sum is null
/// where either side is.
///
/// Calls `arrow2::compute::arithmetics::basic::add`, which adds with `+` on
/// every slot and intersects the validities. Trusted: that, where the
/// lengths agree and no slot overflows, each slot that is valid on both
/// sides holds the sum in the result.
#[verifier::external_body]
pub(crate) fn arrow_add_u64(lhs: &Vec<Option<u64>>, rhs: &Vec<Option<u64>>) -> (out: Vec<
    Option<u64>,
>)
    requires
        lhs.len() == rhs.len(),
        forall|i: int|
            0 <= i < lhs.len() ==> slot_u64(#[trigger] lhs[i]) + slot_u64(rhs[i]) <= u64::MAX,
    ensures
        out.len() == lhs.len(),
        forall|i: int|
            0 <= i < lhs.len() ==> #[trigger] out[i] == match (lhs[i], rhs[i]) {
                (Some(a), Some(b)) => Some((a + b) as u64),
                _ => None,
            },
{
    let (left, right) = (PrimitiveArray::<u64>::from(lhs), PrimitiveArray::<u64>::from(rhs));
    let sum = arrow2::compute::arithmetics::basic::add(&left, &right);
    sum.iter().map(|v| v.copied()).collect()
}

/// Compares every value of a signed column with a scalar by `==`; the
/// result is null where the value is, and everywhere where the scalar is.
///
/// Calls `arrow2::compute::comparison::eq_scalar`. Trusted: that for a null
/// scalar it returns a column of nulls as long as the input, and otherwise
/// tests equality on each valid slot and keeps the validity.
#[verifier::external_body]
pub(crate) fn arrow_eq_scalar_i64(values: &Vec<Option<i64>>, rhs: Option<i64>) -> (out: Vec<Option<bool>>)
    ensures
        out.len() == values.len(),
        forall|i: int|
            0 <= i < values.len() ==> #[trigger] out[i] == match (values[i], rhs) {
                (Some(v), Some(s)) => Some(v == s),
                _ => None,
            },
{
    let lhs = PrimitiveArray::<i64>::from(values);
    let scalar = PrimitiveScalar::<i64>::new(DataType::Int64, rhs);
    eq_scalar(&lhs, &scalar).iter().collect()
}

/// Compares every value of a signed column with a scalar by `!=`; the
/// result is null where the value is, and everywhere where the scalar is.
///
/// Calls `arrow2::compute::comparison::neq_scalar`. Trusted: that for a null
/// scalar it returns a column of nulls as long as the input, and otherwise
/// tests inequality on each valid slot and keeps the validity.
#[verifier::external_body]
pub(crate) fn arrow_neq_scalar_i64(values: &Vec<Option<i64>>, rhs: Option<i64>) -> (out: Vec<Option<bool>>)
    ensures
        out.len() == values.len(),
        forall|i: int|
            0 <= i < values.len() ==> #[trigger] out[i] == match (values[i], rhs) {
                (Some(v), Some(s)) => Some(v != s),
                _ => None,
            },
{
    let lhs = PrimitiveArray::<i64>::from(values);
    let scalar = PrimitiveScalar::<i64>::new(DataType::Int64, rhs);
    neq_scalar(&lhs, &scalar).iter().collect()
}

/// Compares every value of a signed column with a scalar by `<`; the
/// result is null where the value is, and everywhere where the scalar is.
///
/// Calls `arrow2::compute::comparison::lt_scalar`. Trusted: that for a null
/// scalar it returns a column of nulls as long as the input, and otherwise
/// tests whether the value is less on each valid slot and keeps the validity.
#[verifier::external_body]
pub(crate) fn arrow_lt_scalar_i64(values: &Vec<Option<i64>>, rhs: Option<i64>) -> (out: Vec<Option<bool>>)
    ensures
        out.len() == values.len(),
        forall|i: int|
            0 <= i < values.len() ==> #[trigger] out[i] == match (values[i], rhs) {
                (Some(v), Some(s)) => Some(v < s),
                _ => None,
            },
{
    let lhs = PrimitiveArray::<i64>::from(values);
    let scalar = PrimitiveScalar::<i64>::new(DataType::Int64, rhs);
    lt_scalar(&lhs, &scalar).iter().collect()
}

/// Compares every value of a signed column with a scalar by `<=`; the
/// result is null where the value is, and everywhere where the scalar is.
///
/// Calls `arrow2::compute::comparison::lt_eq_scalar`. Trusted: that for a null
/// scalar it returns a column of nulls as long as the input, and otherwise
/// tests whether the value is less or equal on each valid slot and keeps the validity.
#[verifier::external_body]
pub(crate) fn arrow_lt_eq_scalar_i64(values: &Vec<Option<i64>>, rhs: Option<i64>) -> (out: Vec<Option<bool>>)
    ensures
        out.len() == values.len(),
        forall|i: int|
            0 <= i < values.len() ==> #[trigger] out[i] == match (values[i], rhs) {
                (Some(v), Some(s)) => Some(v <= s),
                _ => None,
            },
{
    let lhs = PrimitiveArray::<i64>::from(values);
    let scalar = PrimitiveScalar::<i64>::new(DataType::Int64, rhs);
    lt_eq_scalar(&lhs, &scalar).iter().collect()
}

/// Compares every value of a signed column with a scalar by `>`; the
/// result is null where the value is, and everywhere where the scalar is.
///
/// Calls `arrow2::compute::comparison::gt_scalar`. Trusted: that for a null
/// scalar it returns a column of nulls as long as the input, and otherwise
/// tests whether the value is greater on each valid slot and keeps the validity.
#[verifier::external_body]
pub(crate) fn arrow_gt_scalar_i64(values: &Vec<Option<i64>>, rhs: Option<i64>) -> (out: Vec<Option<bool>>)
    ensures
        out.len() == values.len(),
        forall|i: int|
            0 <= i < values.len() ==> #[trigger] out[i] == match (values[i], rhs) {
                (Some(v), Some(s)) => Some(v > s),
                _ => None,
            },
{
    let lhs = PrimitiveArray::<i64>::from(values);
    let scalar = PrimitiveScalar::<i64>::new(DataType::Int64, rhs);
    gt_scalar(&lhs, &scalar).iter().collect()
}

/// Compares every value of a signed column with a scalar by `>=`; the
/// result is null where the value is, and everywhere where the scalar is.
///
/// Calls `arrow2::compute::comparison::gt_eq_scalar`. Trusted: that for a null
/// scalar it returns a column of nulls as long as the input, and otherwise
/// tests whether the value is greater or equal on each valid slot and keeps the validity.
#[verifier::external_body]
pub(crate) fn arrow_gt_eq_scalar_i64(values: &Vec<Option<i64>>, rhs: Option<i64>) -> (out: Vec<Option<bool>>)
    ensures
        out.len() == values.len(),
        forall|i: int|
            0 <= i < values.len() ==> #[trigger] out[i] == match (values[i], rhs) {
                (Some(v), Some(s)) => Some(v >= s),
                _ => None,
            },
{
    let lhs = PrimitiveArray::<i64>::from(values);
    let scalar = PrimitiveScalar::<i64>::new(DataType::Int64, rhs);
    gt_eq_scalar(&lhs, &scalar).iter().collect()
}

} // verus!
