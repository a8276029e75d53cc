use vstd::prelude::*;

verus! {

/// Input that cannot be worked on: an empty file, or a file to decompress
/// without the `.huff` extension. Holds a description.
#[derive(Debug, PartialEq, Eq)]
pub struct InputError(pub String);

/// What is wrong with a container that cannot be decompressed.
#[derive(Debug, PartialEq, Eq, Structural, Clone, Copy)]
pub enum FormatError {
    /// The length fields do not fit the buffer, or the payload is not the
    /// size that the bit count needs.
    Container,
    /// The tree bytes are not a serialized tree, or a leaf of it holds
    /// something other than a Unicode scalar value.
    Tree,
    /// The bits end inside a code.
    Bits,
}

/// A failed compression or decompression.
#[derive(Debug, PartialEq, Eq)]
pub enum HuffError {
    Input(InputError),
    Format(FormatError),
}

} // verus!
