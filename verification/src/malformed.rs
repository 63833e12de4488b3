//! The ways in which bytes fail to be an archive.
use vstd::prelude::*;

verus! {

/// Why an entry cannot be read. `Id` is the bytes of a field's id.
#[derive(Debug)]
pub enum Malformed<Id> {
    /// The entry does not end in `)`.
    NoClosingParenthesis,
    /// No `(` matches the `)` at the end of the entry.
    NoOpeningParenthesis,
    /// More parentheses are open at once than can be counted.
    TooDeep,
    /// A field has an id that no field has.
    UnknownId(Id),
    /// A number does not fit its field.
    NumberTooLarge,
    /// The data is said to be larger than what precedes the trailer.
    SizeTooLarge,
}

impl View for Malformed<Vec<u8>> {
    type V = Malformed<Seq<u8>>;

    open spec fn view(&self) -> Malformed<Seq<u8>> {
        match self {
            Malformed::NoClosingParenthesis => Malformed::NoClosingParenthesis,
            Malformed::NoOpeningParenthesis => Malformed::NoOpeningParenthesis,
            Malformed::TooDeep => Malformed::TooDeep,
            Malformed::UnknownId(id) => Malformed::UnknownId(id@),
            Malformed::NumberTooLarge => Malformed::NumberTooLarge,
            Malformed::SizeTooLarge => Malformed::SizeTooLarge,
        }
    }
}

} // verus!
