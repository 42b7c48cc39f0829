//! Types shared inside PSWAP chain tracking.
use core::cmp::Ordering;

use vstd::prelude::*;
use vstd::std_specs::cmp::{PartialEqSpec, PartialOrdSpec};

verus! {

/// An order's identifier as a map key, compared by its canonical integer value.
#[derive(Clone, Copy, Eq, Ord)]
pub struct OrderIdKey {
    pub value: u64,
}

impl From<u64> for OrderIdKey {
    fn from(value: u64) -> (key: OrderIdKey) {
        OrderIdKey { value }
    }
}

impl vstd::std_specs::convert::FromSpecImpl<u64> for OrderIdKey {
    open spec fn obeys_from_spec() -> bool {
        true
    }

    open spec fn from_spec(value: u64) -> OrderIdKey {
        OrderIdKey { value }
    }
}

impl PartialEq for OrderIdKey {
    fn eq(&self, other: &OrderIdKey) -> (equal: bool) {
        self.value == other.value
    }
}

impl vstd::std_specs::cmp::PartialEqSpecImpl for OrderIdKey {
    open spec fn obeys_eq_spec() -> bool {
        true
    }

    open spec fn eq_spec(&self, other: &OrderIdKey) -> bool {
        self.value == other.value
    }
}

impl PartialOrd for OrderIdKey {
    fn partial_cmp(&self, other: &OrderIdKey) -> (ordering: Option<Ordering>) {
        if self.value < other.value {
            Some(Ordering::Less)
        } else if self.value == other.value {
            Some(Ordering::Equal)
        } else {
            Some(Ordering::Greater)
        }
    }
}

impl vstd::std_specs::cmp::PartialOrdSpecImpl for OrderIdKey {
    open spec fn obeys_partial_cmp_spec() -> bool {
        true
    }

    open spec fn partial_cmp_spec(&self, other: &OrderIdKey) -> Option<Ordering> {
        if self.value < other.value {
            Some(Ordering::Less)
        } else if self.value == other.value {
            Some(Ordering::Equal)
        } else {
            Some(Ordering::Greater)
        }
    }
}

/// Orders compare as the integers that identify them.
pub proof fn law_orders_compare_as_integers(left: OrderIdKey, right: OrderIdKey)
    ensures
        left.partial_cmp_spec(&right) == Some(Ordering::Less) <==> left.value < right.value,
        left.partial_cmp_spec(&right) == Some(Ordering::Greater) <==> left.value > right.value,
        left.partial_cmp_spec(&right) == Some(Ordering::Equal) <==> left.value == right.value,
        left.eq_spec(&right) <==> left.value == right.value,
{
}

} // verus!
