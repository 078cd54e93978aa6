//! Calendar dates as plain values.
//!
//! Expiration dates reach the allocator already parsed: a date is just its
//! year, month and day. The allocator only ever compares dates, so the
//! ordering is defined here once, as a spec function with a verified
//! executable counterpart.

use vstd::prelude::*;

verus! {

/// A calendar date without a time component, held as plain fields.
/// The allocator never computes with calendars; it only orders dates,
/// so no validity constraint on the fields is needed.
#[derive(Clone, Copy, Debug, PartialEq, Eq, Structural, Hash)]
pub struct Date {
    pub year: i32,
    pub month: u32,
    pub day: u32,
}

impl Date {
    /// Lexicographic order on (year, month, day).
    pub open spec fn le(self, other: Date) -> bool {
        ||| self.year < other.year
        ||| (self.year == other.year && self.month < other.month)
        ||| (self.year == other.year && self.month == other.month && self.day <= other.day)
    }

    pub fn new(year: i32, month: u32, day: u32) -> (d: Date)
        ensures
            d == (Date { year, month, day }),
    {
        Date { year, month, day }
    }

    /// Executable comparison, equal to the spec-level order.
    pub fn is_le(&self, other: &Date) -> (r: bool)
        ensures
            r == self.le(*other),
    {
        self.year < other.year || (self.year == other.year && (self.month < other.month || (
        self.month == other.month && self.day <= other.day)))
    }

    /// The order on dates is total and antisymmetric.
    pub proof fn lemma_le_total(a: Date, b: Date)
        ensures
            a.le(b) || b.le(a),
            a.le(b) && b.le(a) ==> a == b,
            a.le(a),
    {
    }

    pub proof fn lemma_le_trans(a: Date, b: Date, c: Date)
        ensures
            a.le(b) && b.le(c) ==> a.le(c),
    {
    }
}

} // verus!
