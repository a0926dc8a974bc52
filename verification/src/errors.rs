use vstd::prelude::*;

verus! {

/// The errors the store can report.
///
/// Every fallible operation of the library returns one of these; no
/// operation panics. `Io` is produced only by the surrounding program,
/// which owns the file handling; the library itself reports the others.
#[derive(Debug, Clone, Copy, PartialEq, Eq, Structural)]
pub enum EnvError {
    /// The ciphertext file could not be read or written.
    Io,
    /// The ciphertext could not be decrypted: its length is not a multiple
    /// of the cipher's block size, or its padding is invalid.
    Crypto,
    /// The decrypted bytes are not the serialization of a string-to-string map.
    Format,
    /// A `set` argument holds no `=` sign.
    InvalidExpression,
    /// The serialized map does not fit the store's size bound.
    SizeLimit,
    /// The command word names no known command.
    UnknownCommand,
}

impl EnvError {
    /// A short description of the error, for the surrounding program to print.
    pub fn message(&self) -> (r: &'static str)
        ensures
            r@ == match self {
                EnvError::Io => "cannot read or write the ciphertext file"@,
                EnvError::Crypto => "ciphertext is corrupt: bad length or padding"@,
                EnvError::Format => "decrypted data is not a string-to-string map"@,
                EnvError::InvalidExpression => "expression holds no '=' sign"@,
                EnvError::SizeLimit => "serialized map exceeds the size limit"@,
                EnvError::UnknownCommand => "unknown command"@,
            },
    {
        match self {
            EnvError::Io => "cannot read or write the ciphertext file",
            EnvError::Crypto => "ciphertext is corrupt: bad length or padding",
            EnvError::Format => "decrypted data is not a string-to-string map",
            EnvError::InvalidExpression => "expression holds no '=' sign",
            EnvError::SizeLimit => "serialized map exceeds the size limit",
            EnvError::UnknownCommand => "unknown command",
        }
    }
}

} // verus!
