use vstd::prelude::*;

verus! {

/// Failures when compressing or decompressing `vpk0` data.
#[derive(Debug, Clone, PartialEq, Eq)]
#[non_exhaustive]
pub enum VpkError {
    /// The magic bytes are valid text but not `vpk0`.
    InvalidHeader(String),
    /// The method byte is neither 0 nor 1.
    InvalidMethod(u8),
    /// A back-reference asked to move back further than the output reaches:
    /// (offset, bytes produced so far).
    BadLookBack(usize, usize),
    /// A Huffman tree cannot yield a value (a leaf wider than 32 bits, or a
    /// code longer than 31 bits).
    BadTreeEncoding,
    /// A tree given by the caller failed to lex, to parse, or to cover a size.
    BadUserTree(EncodeTreeParseErr),
    /// The input is longer than `u32::MAX` bytes.
    InputTooBig,
    /// The magic bytes are not valid UTF-8.
    Utf8Error,
    /// The input ended before the data it announced.
    Io,
}

/// Failures when reading a textual Huffman tree such as `(1, (4, 7))`.
/// Positions are byte offsets from the start of the text.
#[derive(Debug, Clone, Copy, PartialEq, Eq)]
#[non_exhaustive]
pub enum EncodeTreeParseErr {
    /// A run of digits at this position does not fit in a byte.
    LexNum(usize),
    /// A character that is no part of the grammar.
    LexUnexp(char, usize),
    /// A token where another was expected.
    ParseUnexp(&'static str, usize),
    /// The text ended inside a node.
    ParseUnexpEnd,
    /// A bit width seen in the data is larger than every leaf of the tree.
    Uncovered(u8),
}

} // verus!
