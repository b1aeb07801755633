//! A parser for a small path-filter language: a dotted chain of segments,
//! each a name (bare identifier or quoted string) followed by any number of
//! braced labels or bracketed numeric indices.
//!
//! [`parse_filter`] turns an input string into a sequence of [`Field`]
//! records or a positioned [`FilterError`].

use vstd::prelude::*;

pub mod error;
pub mod field;
pub mod grammar;
pub mod reduce;

pub use error::{FilterError, Position, Rule};
pub use field::Field;
pub use grammar::{Filter, Node, Segment, Span};
pub use reduce::reduce;

verus! {

use crate::error::{SpecError, err_position_wf};
use crate::field::{SpecField, fields_view};
use crate::grammar::{TreeParse, spec_parse_filter};
use crate::reduce::{SpecOutcome, spec_reduce};

/// The mathematical result of parsing a filter: the reduced fields of the
/// unique parse of `s`, or the first failure.
pub open spec fn spec_filter(s: Seq<char>) -> SpecOutcome {
    match spec_parse_filter(s) {
        TreeParse::Fail { at, expected } => SpecOutcome::Fail(SpecError::Syntax { at, expected }),
        TreeParse::Match(t) => spec_reduce(t),
    }
}

/// What `parse_filter` promises: the result is exactly `spec_filter` of the
/// input, and an error carries a correctly computed line and column.
pub open spec fn parse_filter_post(s: Seq<char>, r: Result<Vec<Field>, FilterError>) -> bool {
    match r {
        Ok(fields) => spec_filter(s) == SpecOutcome::Fields(fields_view(fields@)),
        Err(e) => spec_filter(s) == SpecOutcome::Fail(e@) && err_position_wf(s, e),
    }
}

/// Parse `input` and return a vector of [`Field`]s.
///
/// A valid filter is one or more chained segments. Label and index
/// qualifiers may mix freely on one segment: labels accumulate in written
/// order, and a later index overwrites an earlier one. A segment whose name
/// reduces to the empty string (only `.""` can produce one) yields no field.
pub fn parse_filter(input: &str) -> (r: Result<Vec<Field>, FilterError>)
    ensures
        parse_filter_post(input@, r),
{
    match Filter::parse(input) {
        Ok(tree) => reduce(input, &tree),
        Err(e) => Err(e),
    }
}

/// Parsing is deterministic: any two results that `parse_filter` may return
/// for the same input have the same value.
pub proof fn lemma_parse_filter_deterministic(
    s: Seq<char>,
    r1: Result<Vec<Field>, FilterError>,
    r2: Result<Vec<Field>, FilterError>,
)
    requires
        parse_filter_post(s, r1),
        parse_filter_post(s, r2),
    ensures
        (match (r1, r2) {
            (Ok(f1), Ok(f2)) => fields_view(f1@) == fields_view(f2@),
            (Err(e1), Err(e2)) => e1@ == e2@,
            _ => false,
        }),
{
}

} // verus!
