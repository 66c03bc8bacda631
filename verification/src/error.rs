//! The error taxonomy of the storage engine.

use vstd::prelude::*;
use vstd::string::StringExecFns;

use crate::util::{format_u64, spec_dec_digits};

verus! {

/// Everything that can go wrong inside the engine.
///
/// `Io` stands for a failure to read expected bytes (a short read, or a
/// wrapped filesystem error reported by the host program); `InvalidChecksum`
/// reports the stored and the recomputed 32-bit checksum of a corrupt record.
#[derive(Debug, Clone, PartialEq, Eq)]
pub enum Error {
    Io(String),
    InvalidPath(String),
    InvalidFileId(u32),
    InvalidKeySize(usize),
    InvalidValueSize(usize),
    InvalidChecksum { expected: u32, found: u32 },
}

/// The text of an error, variant by variant.
pub open spec fn spec_error_message(e: Error) -> Seq<char> {
    match e {
        Error::Io(m) => "IO error: "@ + m@,
        Error::InvalidPath(p) => "Invalid path provided: "@ + p@,
        Error::InvalidFileId(id) => "Invalid file id: "@ + spec_dec_digits(id as int),
        Error::InvalidKeySize(size) => "Invalid key size, max: 65535, found: "@
            + spec_dec_digits(size as int),
        Error::InvalidValueSize(size) => "Invalid value size, max: 4294967294, found: "@
            + spec_dec_digits(size as int),
        Error::InvalidChecksum { expected, found } => "Invalid checksum, expected: "@
            + spec_dec_digits(expected as int) + ", found: "@ + spec_dec_digits(found as int),
    }
}

impl Error {
    /// A human-readable description of the error.
    pub fn message(&self) -> (r: String)
        ensures
            r@ == spec_error_message(*self),
    {
        proof {
            reveal_strlit("IO error: ");
            reveal_strlit("Invalid path provided: ");
            reveal_strlit("Invalid file id: ");
            reveal_strlit("Invalid key size, max: 65535, found: ");
            reveal_strlit("Invalid value size, max: 4294967294, found: ");
            reveal_strlit("Invalid checksum, expected: ");
            reveal_strlit(", found: ");
        }
        match self {
            Error::Io(m) => {
                let mut s = "IO error: ".to_owned();
                s.append(m.as_str());
                s
            },
            Error::InvalidPath(p) => {
                let mut s = "Invalid path provided: ".to_owned();
                s.append(p.as_str());
                s
            },
            Error::InvalidFileId(id) => {
                let mut s = "Invalid file id: ".to_owned();
                let digits = format_u64(*id as u64);
                s.append(digits.as_str());
                s
            },
            Error::InvalidKeySize(size) => {
                let mut s = "Invalid key size, max: 65535, found: ".to_owned();
                let digits = format_u64(*size as u64);
                s.append(digits.as_str());
                s
            },
            Error::InvalidValueSize(size) => {
                let mut s = "Invalid value size, max: 4294967294, found: ".to_owned();
                let digits = format_u64(*size as u64);
                s.append(digits.as_str());
                s
            },
            Error::InvalidChecksum { expected, found } => {
                let mut s = "Invalid checksum, expected: ".to_owned();
                let digits = format_u64(*expected as u64);
                s.append(digits.as_str());
                s.append(", found: ");
                let digits2 = format_u64(*found as u64);
                s.append(digits2.as_str());
                s
            },
        }
    }
}

} // verus!
