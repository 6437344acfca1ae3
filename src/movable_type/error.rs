use vstd::prelude::*;

verus! {

/// Why a part of an export could not be decoded.
#[derive(Debug, Clone, Copy, PartialEq, Eq, Structural)]
pub enum ParseError {
    /// An expected `KEY: value` line, marker or delimiter is absent or cut short.
    MalformedField,
    /// The body block is unterminated or its markup does not parse.
    MalformedBody,
    /// A component of a comment's IP address is out of range or not a number.
    MalformedIp,
    /// A timestamp does not match the export's layout.
    MalformedDate,
}

} // verus!
