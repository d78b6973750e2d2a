use vstd::prelude::*;

verus! {

/// The failure taxonomy of the codec.
#[derive(Clone, Copy, Debug, PartialEq, Eq, Structural)]
pub enum ErrorKind {
    /// A read was requested past the end of the byte source: the input was
    /// truncated.
    EndOfStream,
    /// A byte did not match the grammar, or a numeric literal was malformed
    /// or out of range.
    Format,
    /// A typed decode met a value whose variant does not match the target
    /// type.
    TypeMismatch,
    /// A required dictionary key, or a looked-up value, was absent.
    NotFound,
}

/// A codec failure: its taxonomy kind together with a human-readable note.
#[derive(Debug)]
pub struct BencodeError {
    /// Which kind of failure occurred.
    pub kind: ErrorKind,
    /// A short human-readable description.
    pub message: String,
}

impl BencodeError {
    /// Creates an error of the given kind with the given note.
    pub fn new(kind: ErrorKind, message: &str) -> (r: BencodeError)
        ensures
            r.kind == kind,
    {
        BencodeError { kind, message: message.to_owned() }
    }

    /// The kind of this failure.
    pub fn kind(&self) -> (r: ErrorKind)
        ensures
            r == self.kind,
    {
        self.kind
    }
}

} // verus!
