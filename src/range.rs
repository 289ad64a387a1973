//! A closed abstraction over the interval types of `std::ops`, seen as an
//! optional start and an optional end.

use vstd::prelude::*;

verus! {

/// An interval of `usize` positions whose bounds may be open.
pub trait Range {
    spec fn start_spec(&self) -> Option<usize>;

    spec fn end_spec(&self) -> Option<usize>;

    fn start(&self) -> (r: Option<usize>)
        ensures
            r == self.start_spec(),
    ;

    fn end(&self) -> (r: Option<usize>)
        ensures
            r == self.end_spec(),
    ;
}

impl Range for std::ops::Range<usize> {
    open spec fn start_spec(&self) -> Option<usize> {
        Some(self.start)
    }

    open spec fn end_spec(&self) -> Option<usize> {
        Some(self.end)
    }

    fn start(&self) -> (r: Option<usize>) {
        Some(self.start)
    }

    fn end(&self) -> (r: Option<usize>) {
        Some(self.end)
    }
}

/// The half-open interval `start..`, whose public field Verus reads.
#[verifier::external_type_specification]
#[verifier::reject_recursive_types(Idx)]
pub struct ExRangeFrom<Idx>(std::ops::RangeFrom<Idx>);

/// The interval `..end`, whose public field Verus reads.
#[verifier::external_type_specification]
#[verifier::reject_recursive_types(Idx)]
pub struct ExRangeTo<Idx>(std::ops::RangeTo<Idx>);

/// The unbounded interval `..`, which has no fields.
#[verifier::external_type_specification]
pub struct ExRangeFull(std::ops::RangeFull);

impl Range for std::ops::RangeFrom<usize> {
    open spec fn start_spec(&self) -> Option<usize> {
        Some(self.start)
    }

    open spec fn end_spec(&self) -> Option<usize> {
        None
    }

    fn start(&self) -> (r: Option<usize>) {
        Some(self.start)
    }

    fn end(&self) -> (r: Option<usize>) {
        None
    }
}

impl Range for std::ops::RangeTo<usize> {
    open spec fn start_spec(&self) -> Option<usize> {
        None
    }

    open spec fn end_spec(&self) -> Option<usize> {
        Some(self.end)
    }

    fn start(&self) -> (r: Option<usize>) {
        None
    }

    fn end(&self) -> (r: Option<usize>) {
        Some(self.end)
    }
}

impl Range for std::ops::RangeFull {
    open spec fn start_spec(&self) -> Option<usize> {
        None
    }

    open spec fn end_spec(&self) -> Option<usize> {
        None
    }

    fn start(&self) -> (r: Option<usize>) {
        None
    }

    fn end(&self) -> (r: Option<usize>) {
        None
    }
}

} // verus!
