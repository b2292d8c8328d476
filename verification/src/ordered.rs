//! The total order of keys in which a missing value comes last.

use std::cmp::Ordering;
use vstd::prelude::*;

verus! {

/// A key that may be missing, ordered so that a missing one is greater than
/// every key and equal to itself.
#[derive(Debug, Clone, Copy, PartialEq, Eq, Structural)]
pub struct OrderedFloat {
    pub value: Option<i64>,
}

/// How `a` stands to `b` in the total order.
pub open spec fn total_order(a: Option<i64>, b: Option<i64>) -> Ordering {
    match (a, b) {
        (None, None) => Ordering::Equal,
        (None, Some(_)) => Ordering::Greater,
        (Some(_), None) => Ordering::Less,
        (Some(x), Some(y)) => if x < y {
            Ordering::Less
        } else if x == y {
            Ordering::Equal
        } else {
            Ordering::Greater
        },
    }
}

/// Whether `a` is not greater than `b` in the total order.
pub open spec fn key_le(a: Option<i64>, b: Option<i64>) -> bool {
    match (a, b) {
        (_, None) => true,
        (None, Some(_)) => false,
        (Some(x), Some(y)) => x <= y,
    }
}

/// The two ways of stating the order agree.
pub proof fn lemma_key_le_is_order(a: Option<i64>, b: Option<i64>)
    ensures
        key_le(a, b) <==> total_order(a, b) != Ordering::Greater,
{
}

/// The order is total: of two keys one is not greater than the other, what
/// is not greater both ways is equal, and the order is transitive.
pub proof fn lemma_key_le_total(a: Option<i64>, b: Option<i64>, c: Option<i64>)
    ensures
        key_le(a, b) || key_le(b, a),
        key_le(a, b) && key_le(b, a) ==> a == b,
        key_le(a, b) && key_le(b, c) ==> key_le(a, c),
{
}

/// Whether `a` is not greater than `b` in the total order.
pub fn not_above(a: Option<i64>, b: Option<i64>) -> (r: bool)
    ensures
        r == key_le(a, b),
{
    match (a, b) {
        (_, None) => true,
        (None, Some(_)) => false,
        (Some(x), Some(y)) => x <= y,
    }
}

impl OrderedFloat {
    /// The key `value` as a member of the total order.
    pub fn new(value: Option<i64>) -> (r: OrderedFloat)
        ensures
            r.value == value,
    {
        OrderedFloat { value }
    }

    /// How this key stands to `other` in the total order.
    pub fn cmp(&self, other: &Self) -> (o: Ordering)
        ensures
            o == total_order(self.value, other.value),
    {
        match (self.value, other.value) {
            (None, None) => Ordering::Equal,
            (None, Some(_)) => Ordering::Greater,
            (Some(_), None) => Ordering::Less,
            (Some(x), Some(y)) => if x < y {
                Ordering::Less
            } else if x == y {
                Ordering::Equal
            } else {
                Ordering::Greater
            },
        }
    }
}

impl From<Option<i64>> for OrderedFloat {
    fn from(value: Option<i64>) -> (r: Self) {
        OrderedFloat { value }
    }
}

impl vstd::std_specs::convert::FromSpecImpl<Option<i64>> for OrderedFloat {
    open spec fn obeys_from_spec() -> bool {
        true
    }

    open spec fn from_spec(value: Option<i64>) -> Self {
        OrderedFloat { value }
    }
}

} // verus!
