//! The closed error taxonomy of the core: faults passed through from the
//! serialization and decode layers, numeric radix-parse failures, and the
//! internally enforced resource bounds.  Ordinary "token not recognized"
//! outcomes are not errors; the parser drops such tokens instead.
use vstd::prelude::*;

verus! {

/// One fault of the decompiler core or of the layers around it.
#[derive(Debug, PartialEq, Eq)]
pub enum Error {
    /// A JSON (de)serialization fault, carried as its message.
    SerdeError(String),
    /// A radix-parse fault of a numeric string, carried as its message.
    FromStrRadixError(String),
    /// A recursion or size ceiling was passed.
    BoundsError,
    /// A malformed byte sequence reached a decoder.
    DecodeError,
    /// Any other fault, carried as its message.
    GenericError(String),
}

impl Error {
    /// The human-readable text of a fault.
    pub fn message(&self) -> (r: String)
        ensures
            r@ == match *self {
                Error::SerdeError(m) => "Json error: "@ + m@,
                Error::FromStrRadixError(m) => "FromStrRadixError: "@ + m@,
                Error::BoundsError => "BoundsError"@,
                Error::DecodeError => "DecodeError"@,
                Error::GenericError(m) => "Error: "@ + m@,
            },
    {
        match self {
            Error::SerdeError(m) => {
                let mut r = "Json error: ".to_owned();
                r.append(m.as_str());
                r
            },
            Error::FromStrRadixError(m) => {
                let mut r = "FromStrRadixError: ".to_owned();
                r.append(m.as_str());
                r
            },
            Error::BoundsError => "BoundsError".to_owned(),
            Error::DecodeError => "DecodeError".to_owned(),
            Error::GenericError(m) => {
                let mut r = "Error: ".to_owned();
                r.append(m.as_str());
                r
            },
        }
    }
}

} // verus!
