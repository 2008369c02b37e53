//! The error a failed call surfaces to calling code, and its mapping
//! from the execution environment's status codes.

use vstd::prelude::*;

use crate::types::ExtStatusCode;

verus! {

/// Why a call failed.
#[derive(Debug, PartialEq, Eq)]
pub enum Error {
    /// An unclassified failure.
    Unknown,
    /// Not enough funds to pay for the transaction.
    InsufficientFunds,
    /// Execution ran out of gas.
    OutOfGas,
    /// Invalid input provided to a transaction.
    InvalidInput,
    /// The transaction failed with a status code of its own, carrying
    /// whatever payload the execution environment supplied.
    Execution { code: u32, payload: Vec<u8> },
}

impl Error {
    /// The error a status code stands for; a large code carries its
    /// `payload` through, a small unrecognized one is `Unknown`.
    pub fn from_status(code: ExtStatusCode, payload: Vec<u8>) -> (r: Error)
        ensures
            code.0 == 1 ==> r == Error::InsufficientFunds,
            code.0 == 2 ==> r == Error::InvalidInput,
            code.0 != 1 && code.0 != 2 && code.0 < 255 ==> r == Error::Unknown,
            code.0 >= 255 ==> r == (Error::Execution { code: code.0, payload: payload }),
    {
        if code.0 == 1 {
            Error::InsufficientFunds
        } else if code.0 == 2 {
            Error::InvalidInput
        } else if code.0 < 255 {
            Error::Unknown
        } else {
            Error::Execution { code: code.0, payload }
        }
    }

    /// A short name for the error kind.
    pub fn describe(&self) -> (r: &str)
        ensures
            self is Unknown ==> r@ == "unknown"@,
            self is InsufficientFunds ==> r@ == "insufficient funds"@,
            self is OutOfGas ==> r@ == "out of gas"@,
            self is InvalidInput ==> r@ == "invalid input"@,
            self is Execution ==> r@ == "execution failure"@,
    {
        match self {
            Error::Unknown => "unknown",
            Error::InsufficientFunds => "insufficient funds",
            Error::OutOfGas => "out of gas",
            Error::InvalidInput => "invalid input",
            Error::Execution { .. } => "execution failure",
        }
    }
}

} // verus!
