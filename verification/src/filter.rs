//! Filter predicates: the comparison of every value of a column with a
//! scalar.

use crate::arrow::{
    arrow_eq_scalar_i64, arrow_gt_eq_scalar_i64, arrow_gt_scalar_i64, arrow_lt_eq_scalar_i64,
    arrow_lt_scalar_i64, arrow_neq_scalar_i64,
};
use crate::column::{column_keys, ColumnArray};
use crate::composite::{fits_i64, widen, widened};
use crate::datatypes::TableError;
use vstd::prelude::*;

verus! {

/// A comparison with a scalar, which may be null.
#[derive(Clone, Copy, Debug)]
pub enum FilterPredicate {
    LessEqual(Option<i64>),
    Less(Option<i64>),
    Greater(Option<i64>),
    GreaterEqual(Option<i64>),
    Equal(Option<i64>),
    NotEqual(Option<i64>),
}

impl FilterPredicate {
    /// The scalar that values are compared with.
    pub open spec fn scalar(self) -> Option<i64> {
        match self {
            FilterPredicate::LessEqual(s) => s,
            FilterPredicate::Less(s) => s,
            FilterPredicate::Greater(s) => s,
            FilterPredicate::GreaterEqual(s) => s,
            FilterPredicate::Equal(s) => s,
            FilterPredicate::NotEqual(s) => s,
        }
    }

    /// Whether the value `v` stands in the relation to the scalar `s`.
    pub open spec fn holds(self, v: i64, s: i64) -> bool {
        match self {
            FilterPredicate::LessEqual(_) => v <= s,
            FilterPredicate::Less(_) => v < s,
            FilterPredicate::Greater(_) => v > s,
            FilterPredicate::GreaterEqual(_) => v >= s,
            FilterPredicate::Equal(_) => v == s,
            FilterPredicate::NotEqual(_) => v != s,
        }
    }

    /// What the predicate says of one slot: null where the value or the
    /// scalar is null.
    pub open spec fn verdict(self, value: Option<i64>) -> Option<bool> {
        match (value, self.scalar()) {
            (Some(v), Some(s)) => Some(self.holds(v, s)),
            _ => None,
        }
    }
}

/// The verdict of a predicate on every slot of a column of an integer type
/// whose values fit in 64 signed bits.
///
/// Refused where the column is not of an integer type and where a value does
/// not fit.
pub fn filter_array(array: &ColumnArray, filter: &FilterPredicate) -> (r: Result<
    Vec<Option<bool>>,
    TableError,
>)
    ensures
        r is Ok <==> array.data_type.is_key_type() && fits_i64(column_keys(array@)),
        r matches Ok(mask) ==> mask.len() == array@.len() && forall|i: int|
            0 <= i < mask.len() ==> #[trigger] mask[i] == filter.verdict(
                widened(column_keys(array@))[i],
            ),
        r matches Err(e) ==> if !array.data_type.is_key_type() {
            e == TableError::UnsupportedKeyType(array.data_type)
        } else {
            e is Overflow
        },
{
    if !array.data_type().key_type() {
        return Err(TableError::UnsupportedKeyType(array.data_type()));
    }
    let values = match widen(array) {
        Some(values) => values,
        None => {
            return Err(TableError::Overflow);
        },
    };
    let mask = match filter {
        FilterPredicate::LessEqual(value) => arrow_lt_eq_scalar_i64(&values, *value),
        FilterPredicate::Less(value) => arrow_lt_scalar_i64(&values, *value),
        FilterPredicate::Greater(value) => arrow_gt_scalar_i64(&values, *value),
        FilterPredicate::GreaterEqual(value) => arrow_gt_eq_scalar_i64(&values, *value),
        FilterPredicate::Equal(value) => arrow_eq_scalar_i64(&values, *value),
        FilterPredicate::NotEqual(value) => arrow_neq_scalar_i64(&values, *value),
    };
    Ok(mask)
}

} // verus!
