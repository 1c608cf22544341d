//! Classifying the outcome of the package-index query and parsing the
//! requested operation.

use vstd::prelude::*;

use crate::text::{bytes_eq, contains_bytes, is_substring};

verus! {

/// The fatal errors of one invocation. Missing dependency data is never an
/// error: an unresolvable target or a package absent for an architecture is
/// expected absence and is skipped instead.
#[derive(Clone, Copy, Debug, PartialEq, Eq, Structural)]
pub enum QueryError {
    /// The requested operation is not one the tool offers.
    InvalidOperation,
    /// The external query tool could not be invoked at all.
    QueryExecutionError,
    /// The query tool ran but reported that the package is unknown.
    NoSourceEntry,
}

impl QueryError {
    /// The process exit status that each fatal error carries.
    pub fn exit_code(&self) -> (c: u8)
        ensures
            *self == QueryError::InvalidOperation ==> c == 2,
            *self == QueryError::QueryExecutionError ==> c == 5,
            *self == QueryError::NoSourceEntry ==> c == 6,
    {
        match self {
            QueryError::InvalidOperation => 2,
            QueryError::QueryExecutionError => 5,
            QueryError::NoSourceEntry => 6,
        }
    }
}

/// Which dependency relations an operation reads.
#[derive(Clone, Copy, Debug, PartialEq, Eq, Structural)]
pub enum Direction {
    /// A package's own declared dependencies.
    Forward,
    /// The packages that declare a dependency on it.
    Reverse,
}

/// The bytes of `Unable to locate package`, the marker the query tool prints
/// on its error stream for an unknown package.
pub open spec fn not_found_marker() -> Seq<u8> {
    seq![
        85u8, 110u8, 97u8, 98u8, 108u8, 101u8, 32u8, 116u8, 111u8, 32u8, 108u8, 111u8, 99u8,
        97u8, 116u8, 101u8, 32u8, 112u8, 97u8, 99u8, 107u8, 97u8, 103u8, 101u8,
    ]
}

/// Executable copy of the not-found marker.
pub fn not_found_marker_bytes() -> (v: Vec<u8>)
    ensures
        v@ == not_found_marker(),
{
    let mut v: Vec<u8> = Vec::new();
    v.push(85);
    v.push(110);
    v.push(97);
    v.push(98);
    v.push(108);
    v.push(101);
    v.push(32);
    v.push(116);
    v.push(111);
    v.push(32);
    v.push(108);
    v.push(111);
    v.push(99);
    v.push(97);
    v.push(116);
    v.push(101);
    v.push(32);
    v.push(112);
    v.push(97);
    v.push(99);
    v.push(107);
    v.push(97);
    v.push(103);
    v.push(101);
    proof {
        assert(v@ =~= not_found_marker());
    }
    v
}

/// The bytes of the operation name `get_rdepends`.
pub open spec fn op_rdepends() -> Seq<u8> {
    seq![103u8, 101u8, 116u8, 95u8, 114u8, 100u8, 101u8, 112u8, 101u8, 110u8, 100u8, 115u8]
}

/// Executable copy of `get_rdepends`.
pub fn op_rdepends_bytes() -> (v: Vec<u8>)
    ensures
        v@ == op_rdepends(),
{
    let mut v: Vec<u8> = Vec::new();
    v.push(103);
    v.push(101);
    v.push(116);
    v.push(95);
    v.push(114);
    v.push(100);
    v.push(101);
    v.push(112);
    v.push(101);
    v.push(110);
    v.push(100);
    v.push(115);
    proof {
        assert(v@ =~= op_rdepends());
    }
    v
}

/// The bytes of the operation name `get_depends`.
pub open spec fn op_depends() -> Seq<u8> {
    seq![103u8, 101u8, 116u8, 95u8, 100u8, 101u8, 112u8, 101u8, 110u8, 100u8, 115u8]
}

/// Executable copy of `get_depends`.
pub fn op_depends_bytes() -> (v: Vec<u8>)
    ensures
        v@ == op_depends(),
{
    let mut v: Vec<u8> = Vec::new();
    v.push(103);
    v.push(101);
    v.push(116);
    v.push(95);
    v.push(100);
    v.push(101);
    v.push(112);
    v.push(101);
    v.push(110);
    v.push(100);
    v.push(115);
    proof {
        assert(v@ =~= op_depends());
    }
    v
}

/// The direction an operation name selects: `get_rdepends` reads reverse
/// dependencies, `get_depends` forward ones, and any other name is the
/// fatal usage error.
pub open spec fn spec_parse_operation(op: Seq<u8>) -> Result<Direction, QueryError> {
    if op == op_rdepends() {
        Ok(Direction::Reverse)
    } else if op == op_depends() {
        Ok(Direction::Forward)
    } else {
        Err(QueryError::InvalidOperation)
    }
}

/// Parse the requested operation name.
pub fn parse_operation(op: &[u8]) -> (r: Result<Direction, QueryError>)
    ensures
        r == spec_parse_operation(op@),
{
    let rdeps = op_rdepends_bytes();
    if bytes_eq(op, rdeps.as_slice()) {
        return Ok(Direction::Reverse);
    }
    let deps = op_depends_bytes();
    if bytes_eq(op, deps.as_slice()) {
        return Ok(Direction::Forward);
    }
    Err(QueryError::InvalidOperation)
}

/// The outcome of the query-tool invocation: a failure to invoke it at all is
/// fatal, a run whose error stream carries the not-found marker means the
/// package has no source entry, and anything else leaves its standard output
/// to be scanned for the `Binary:` field.
pub open spec fn spec_classify_query(invoked: bool, stderr: Seq<u8>) -> Result<(), QueryError> {
    if !invoked {
        Err(QueryError::QueryExecutionError)
    } else if is_substring(not_found_marker(), stderr) {
        Err(QueryError::NoSourceEntry)
    } else {
        Ok(())
    }
}

/// Classify the query-tool invocation from whether it could be run and from
/// its captured error stream.
pub fn classify_query(invoked: bool, stderr: &[u8]) -> (r: Result<(), QueryError>)
    ensures
        r == spec_classify_query(invoked, stderr@),
{
    if !invoked {
        return Err(QueryError::QueryExecutionError);
    }
    let marker = not_found_marker_bytes();
    if contains_bytes(stderr, marker.as_slice()) {
        Err(QueryError::NoSourceEntry)
    } else {
        Ok(())
    }
}

} // verus!
