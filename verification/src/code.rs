//! Status codes of the query service.

use vstd::prelude::*;

verus! {

/// The status codes that a remote call can end with.
#[derive(Clone, Copy, Debug, PartialEq, Eq, Structural)]
pub enum Code {
    Success,
    Cancelled,
    Unknown,
    InvalidArgument,
    DeadlineExceeded,
    NotFound,
    AlreadyExists,
    PermissionDenied,
    ResourceExhausted,
    FailedPrecondition,
    Aborted,
    OutOfRange,
    Unimplemented,
    Internal,
    Unavailable,
    DataLoss,
    Unauthenticated,
}

/// The code that a number stands for; a number that stands for none is unknown.
pub open spec fn code_of(number: i32) -> Code {
    match number {
        0 => Code::Success,
        1 => Code::Cancelled,
        3 => Code::InvalidArgument,
        4 => Code::DeadlineExceeded,
        5 => Code::NotFound,
        6 => Code::AlreadyExists,
        7 => Code::PermissionDenied,
        8 => Code::ResourceExhausted,
        9 => Code::FailedPrecondition,
        10 => Code::Aborted,
        11 => Code::OutOfRange,
        12 => Code::Unimplemented,
        13 => Code::Internal,
        14 => Code::Unavailable,
        15 => Code::DataLoss,
        16 => Code::Unauthenticated,
        _ => Code::Unknown,
    }
}

/// What a code means, in words.
pub open spec fn meaning(code: Code) -> Seq<char> {
    match code {
        Code::Success => "The operation completed successfully"@,
        Code::Cancelled => "The operation was cancelled"@,
        Code::Unknown => "Unknown error"@,
        Code::InvalidArgument => "Client specified an invalid argument"@,
        Code::DeadlineExceeded => "Deadline expired before operation could complete"@,
        Code::NotFound => "Some requested entity was not found"@,
        Code::AlreadyExists => "Some entity that we attempted to create already exists"@,
        Code::PermissionDenied =>
            "The caller does not have permission to execute the specified operation"@,
        Code::ResourceExhausted => "Some resource has been exhausted"@,
        Code::FailedPrecondition =>
            "The system is not in a state required for the operation's execution"@,
        Code::Aborted => "The operation was aborted"@,
        Code::OutOfRange => "Operation was attempted past the valid range"@,
        Code::Unimplemented => "Operation is not implemented or not supported"@,
        Code::Internal => "Internal error"@,
        Code::Unavailable => "The service is currently unavailable"@,
        Code::DataLoss => "Unrecoverable data loss or corruption"@,
        Code::Unauthenticated => "The request does not have valid authentication credentials"@,
    }
}

/// `tonic::Code::description`, of the code that `tonic::Code::from_i32` gives for the
/// number: the fixed text for each of the codes, that of an unknown error for a
/// number that is no code's.
#[verifier::external_body]
fn tonic_description(number: i32) -> (text: String)
    ensures
        text@ == meaning(code_of(number)),
{
    tonic::Code::from_i32(number).description().to_string()
}

impl Code {
    /// The code that a number stands for.
    pub fn from_i32(number: i32) -> (code: Code)
        ensures
            code == code_of(number),
    {
        match number {
            0 => Code::Success,
            1 => Code::Cancelled,
            3 => Code::InvalidArgument,
            4 => Code::DeadlineExceeded,
            5 => Code::NotFound,
            6 => Code::AlreadyExists,
            7 => Code::PermissionDenied,
            8 => Code::ResourceExhausted,
            9 => Code::FailedPrecondition,
            10 => Code::Aborted,
            11 => Code::OutOfRange,
            12 => Code::Unimplemented,
            13 => Code::Internal,
            14 => Code::Unavailable,
            15 => Code::DataLoss,
            16 => Code::Unauthenticated,
            _ => Code::Unknown,
        }
    }

    /// The number that stands for a code.
    pub fn number(self) -> (number: i32)
        ensures
            0 <= number <= 16,
            code_of(number) == self,
    {
        match self {
            Code::Success => 0,
            Code::Cancelled => 1,
            Code::Unknown => 2,
            Code::InvalidArgument => 3,
            Code::DeadlineExceeded => 4,
            Code::NotFound => 5,
            Code::AlreadyExists => 6,
            Code::PermissionDenied => 7,
            Code::ResourceExhausted => 8,
            Code::FailedPrecondition => 9,
            Code::Aborted => 10,
            Code::OutOfRange => 11,
            Code::Unimplemented => 12,
            Code::Internal => 13,
            Code::Unavailable => 14,
            Code::DataLoss => 15,
            Code::Unauthenticated => 16,
        }
    }

    /// What the code means, in words.
    pub fn description(self) -> (text: String)
        ensures
            text@ == meaning(self),
    {
        tonic_description(self.number())
    }
}

} // verus!
