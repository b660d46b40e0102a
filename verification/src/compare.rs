//! Comparison of an index or a shift with a plain number.

use crate::{Index, Shift};
use std::cmp::Ordering;
use vstd::prelude::*;
use vstd::std_specs::cmp::{PartialEqSpecImpl, PartialOrdSpecImpl};

verus! {

impl PartialEq<usize> for Index {
    fn eq(&self, other: &usize) -> (r: bool) {
        self.0 == *other
    }
}

impl PartialEqSpecImpl<usize> for Index {
    open spec fn obeys_eq_spec() -> bool {
        true
    }

    open spec fn eq_spec(&self, other: &usize) -> bool {
        self.0 == *other
    }
}

impl PartialOrd<usize> for Index {
    fn partial_cmp(&self, other: &usize) -> (r: Option<Ordering>) {
        if self.0 < *other {
            Some(Ordering::Less)
        } else if self.0 == *other {
            Some(Ordering::Equal)
        } else {
            Some(Ordering::Greater)
        }
    }
}

impl PartialOrdSpecImpl<usize> for Index {
    open spec fn obeys_partial_cmp_spec() -> bool {
        true
    }

    open spec fn partial_cmp_spec(&self, other: &usize) -> Option<Ordering> {
        if self.0 < *other {
            Some(Ordering::Less)
        } else if self.0 == *other {
            Some(Ordering::Equal)
        } else {
            Some(Ordering::Greater)
        }
    }
}

impl PartialEq<usize> for Shift {
    fn eq(&self, other: &usize) -> (r: bool) {
        self.0 == *other
    }
}

impl PartialEqSpecImpl<usize> for Shift {
    open spec fn obeys_eq_spec() -> bool {
        true
    }

    open spec fn eq_spec(&self, other: &usize) -> bool {
        self.0 == *other
    }
}

impl PartialOrd<usize> for Shift {
    fn partial_cmp(&self, other: &usize) -> (r: Option<Ordering>) {
        if self.0 < *other {
            Some(Ordering::Less)
        } else if self.0 == *other {
            Some(Ordering::Equal)
        } else {
            Some(Ordering::Greater)
        }
    }
}

impl PartialOrdSpecImpl<usize> for Shift {
    open spec fn obeys_partial_cmp_spec() -> bool {
        true
    }

    open spec fn partial_cmp_spec(&self, other: &usize) -> Option<Ordering> {
        if self.0 < *other {
            Some(Ordering::Less)
        } else if self.0 == *other {
            Some(Ordering::Equal)
        } else {
            Some(Ordering::Greater)
        }
    }
}

} // verus!
