//! The ways decoding a document, or one of its parts, can fail.
use vstd::prelude::*;

verus! {

#[derive(Clone, Copy, Debug, PartialEq, Eq, Structural)]
pub enum ParseError {
    /// The transform text does not follow the five-slot grammar.
    TransformGrammarMismatch,
    /// The closing translate is not the negation of the pivot translate.
    TransformConsistencyError,
    /// A number is not written in canonical decimal form.
    NumericParseError,
    /// A fill color is not `#` followed by six hex digits.
    ColorFormatError,
    /// A polygon point does not have exactly two coordinates.
    PolygonPointCountError,
    /// An element or attribute is missing, unexpected or out of place.
    MarkupStructureError,
}

} // verus!
