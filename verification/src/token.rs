//! Tokens, words and error kinds shared by the pipeline stages.

use vstd::prelude::*;

verus! {

/// One G-code word as delivered to the executor: an upper-case letter and a
/// signed value scaled by `crate::num::SCALE`.
#[derive(Clone, Copy, PartialEq, Eq, Structural, Debug)]
pub struct Word {
    pub letter: u8,
    pub mantissa: i64,
}

/// What the tokenizer emits: ordinary words, line-number markers, trailing
/// checksums, and the end-of-line sentinel.
#[derive(Clone, Copy, PartialEq, Eq, Structural, Debug)]
pub enum Token {
    /// `letter` is an upper-case ASCII letter other than `N`; the value is
    /// scaled by `crate::num::SCALE`.
    Word { letter: u8, mantissa: i64 },
    /// An `N` word, parsed as an exact unsigned integer below 100 000.
    LineNumber { n: u32 },
    /// A `*` word: the value the host stated and the XOR the tokenizer
    /// computed over the bytes of the line before the `*`.
    Checksum { stated: u8, computed: u8 },
    /// End-of-line sentinel, emitted exactly once per physical line.
    Execute,
}

/// Lexical errors raised by the tokenizer.
#[derive(Clone, Copy, PartialEq, Eq, Structural, Debug)]
pub enum ParseError {
    /// A byte that cannot continue the current word; carries the byte.
    BadSyntax { byte: u8 },
    /// An `N` word that is signed, fractional or out of range.
    BadLineNumber,
}

/// Everything the core can report to the host.
#[derive(Clone, Copy, PartialEq, Eq, Structural, Debug)]
pub enum ErrorKind {
    /// Peripheral-level serial fault.
    Io,
    /// The byte ring dropped input.
    Overflow,
    /// Lexical error in the byte stream.
    Syntax,
    /// Malformed `N` word.
    BadLineNumber,
    /// More words on one line than the buffer holds.
    TooManyWords,
    /// A numbered line out of sequence, or an unnumbered line after
    /// numbering was established.
    InvalidLineNumber,
    /// A stated checksum that does not match the computed one.
    BadChecksum,
}

impl From<ParseError> for ErrorKind {
    /// Lexical errors surface to the host as protocol errors.
    fn from(e: ParseError) -> (r: ErrorKind) {
        match e {
            ParseError::BadSyntax { byte: _ } => ErrorKind::Syntax,
            ParseError::BadLineNumber => ErrorKind::BadLineNumber,
        }
    }
}

impl vstd::std_specs::convert::FromSpecImpl<ParseError> for ErrorKind {
    open spec fn obeys_from_spec() -> bool {
        true
    }

    open spec fn from_spec(e: ParseError) -> ErrorKind {
        match e {
            ParseError::BadSyntax { byte: _ } => ErrorKind::Syntax,
            ParseError::BadLineNumber => ErrorKind::BadLineNumber,
        }
    }
}

/// A validated line on its way to the executor: the line number when one
/// was present, and the words after it (checksum stripped).
pub struct Line {
    pub number: Option<u32>,
    pub words: Vec<Word>,
}

} // verus!
