//! Error types for every stage of the toolchain.  Each operation reports a
//! specific failure kind and carries the names, offsets and positions a
//! caller needs for a one-line diagnostic; no stage silently recovers.

use vstd::prelude::*;

verus! {

/// Failure while decoding a binary object file or executable image.
#[derive(Clone, Copy, Debug, PartialEq, Eq, Structural)]
pub enum DecodeError {
    /// The buffer ended before a declared length or fixed field was read.
    Truncated,
    /// The magic number or format version did not match.
    MalformedHeader,
    /// A field held a value the format does not allow (bad tag byte,
    /// out-of-range index or offset, zero alignment, duplicate name).
    InvalidFieldValue,
}

/// Failure while assembling a parsed statement sequence.
#[derive(Debug, PartialEq, Eq)]
pub enum AssemblerError {
    /// A label was defined twice within one compilation unit; carries the
    /// offending symbol name.
    DuplicateSymbol(Vec<u8>),
    /// An immediate did not fit its field; carries the field width in bits
    /// and the offending value.
    ValueOutOfRange { width: u32, value: u64 },
}

/// Failure while merging two object files.
#[derive(Debug, PartialEq, Eq)]
pub enum MergeError {
    /// Both inputs define the named symbol.
    DuplicateDefinition(Vec<u8>),
}

/// Failure while linking a merged object file into an executable.
#[derive(Debug, PartialEq, Eq)]
pub enum LinkError {
    /// Every referenced symbol that has no definition, in relocation order.
    UndefinedSymbols(Vec<Vec<u8>>),
    /// A resolved address did not fit the patch field at the named site;
    /// `site` is the absolute image offset of the patch.
    RelocationOverflow { symbol: Vec<u8>, site: usize },
    /// The entry-point symbol is missing or has no definition.
    NoEntryPoint,
}

/// What went wrong on one source line.
#[derive(Clone, Copy, Debug, PartialEq, Eq, Structural)]
pub enum ParseErrorKind {
    /// The first word of the statement names no known instruction.
    UnknownMnemonic,
    /// A directive (a word starting with `.`) is not recognized.
    UnknownDirective,
    /// A label name is empty or holds a character outside `[A-Za-z0-9_]`.
    MalformedLabel,
    /// An operand is neither a well-formed number nor a symbol name.
    MalformedOperand,
    /// The instruction needs an operand and none was given.
    MissingOperand,
    /// A word follows a complete statement.
    ExtraToken,
}

/// Failure while parsing assembly source, with the 1-based line number and
/// the 0-based byte column at which the offending token begins.
#[derive(Clone, Copy, Debug, PartialEq, Eq, Structural)]
pub struct ParseError {
    pub line: usize,
    pub col: usize,
    pub kind: ParseErrorKind,
}

/// The requested target dialect is not known; carries the requested name.
#[derive(Debug, PartialEq, Eq)]
pub struct UnsupportedTargetError {
    pub name: Vec<u8>,
}

} // verus!
