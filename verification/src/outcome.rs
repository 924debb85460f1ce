//! The three-way decode result and its error payload.

use vstd::prelude::*;

verus! {

/// What went wrong with a decode.
#[derive(Clone, Copy, Debug, PartialEq, Eq)]
pub enum Leb128ErrorKind {
    /// The value cannot fit in the target width, however the input continues.
    TooLarge,
    /// Reserved for callers that embed this codec in a richer error type;
    /// the codec itself never produces it.
    Generic,
}

/// A decode failure: the distinguishing kind and a diagnostic message.
#[derive(Clone, Copy, Debug, PartialEq, Eq)]
pub struct Leb128Error {
    pub kind: Leb128ErrorKind,
    pub message: &'static str,
}

/// The outcome of one decode call. The three variants are mutually
/// exclusive and together cover every input.
#[derive(Debug, PartialEq, Eq)]
pub enum Leb128Result<'a, T> {
    /// The decoded value and the input left unconsumed after the terminal
    /// byte.
    Decoded(T, &'a [u8]),
    /// The input ended before a terminal byte; the count says how many more
    /// bytes may settle the parse (always 1, re-evaluated as input arrives).
    NeedsMoreInput(usize),
    /// The input is malformed for the target width; no amount of further
    /// input can mend it.
    Malformed(Leb128Error),
}

} // verus!
