//! The ways in which decoding or painting a feature can fail.

use vstd::prelude::*;

verus! {

/// Why decoding or painting a feature failed.
#[derive(Debug, Clone, Copy, PartialEq, Eq, Structural)]
pub enum Error {
    /// Too few parameter words for a MoveTo or LineTo, a command with a
    /// repeat count of zero, or an unknown command id.
    MalformedGeometry,
    /// A feature's tag list holds an odd number of integers.
    OddTagList,
    /// A tag's key or value index is outside the layer's dictionary.
    TagIndexOutOfRange,
    /// A tag value carries no payload.
    EmptyValue,
    /// A line or polygon feature has no `kind` tag.
    MissingRequiredTag,
    /// A line-string geometry holds a ClosePath command.
    IllegalClosePath,
}

} // verus!
