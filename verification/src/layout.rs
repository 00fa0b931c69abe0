//! What the message containers hand to the code that reads and writes the
//! contents of words: the place of a pointer, from which a typed value is
//! made. The containers know nothing of what such a value holds.

use vstd::prelude::*;

verus! {

/// Where reading starts: the place of a pointer in a message that is read,
/// and how deep the pointers behind it may be followed.
#[derive(Clone, Copy, Debug, PartialEq, Eq, Structural)]
pub struct PointerReader {
    /// The number of the segment that holds the pointer.
    pub segment_id: u32,
    /// The number of the pointer's word in that segment.
    pub offset: usize,
    /// How many pointers deep a reader may go from here.
    pub nesting_limit: usize,
}

/// Where writing starts: the place of a pointer in a message that is
/// built.
#[derive(Clone, Copy, Debug, PartialEq, Eq, Structural)]
pub struct PointerBuilder {
    /// The number of the segment that holds the pointer.
    pub segment_id: u32,
    /// The number of the pointer's word in that segment.
    pub offset: usize,
}

/// A value that reads what is behind a pointer.
pub trait FromPointerReader: Sized {
    /// The value that is made from `reader`.
    spec fn spec_from_pointer_reader(reader: PointerReader) -> Self;

    /// Makes the value from `reader`.
    fn from_pointer_reader(reader: PointerReader) -> (value: Self)
        ensures
            value == Self::spec_from_pointer_reader(reader),
    ;
}

/// A value that writes what is behind a pointer.
pub trait FromPointerBuilder: Sized {
    /// The value that is made from `builder`.
    spec fn spec_from_pointer_builder(builder: PointerBuilder) -> Self;

    /// Makes the value from `builder`.
    fn from_pointer_builder(builder: PointerBuilder) -> (value: Self)
        ensures
            value == Self::spec_from_pointer_builder(builder),
    ;
}

impl FromPointerReader for PointerReader {
    open spec fn spec_from_pointer_reader(reader: PointerReader) -> Self {
        reader
    }

    fn from_pointer_reader(reader: PointerReader) -> (value: Self) {
        reader
    }
}

impl FromPointerBuilder for PointerBuilder {
    open spec fn spec_from_pointer_builder(builder: PointerBuilder) -> Self {
        builder
    }

    fn from_pointer_builder(builder: PointerBuilder) -> (value: Self) {
        builder
    }
}

} // verus!
