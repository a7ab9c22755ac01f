//! Error taxonomy shared by the master and the partitions: a numeric code
//! and the fixed message that goes with it on the wire.

use vstd::prelude::*;

verus! {

/// The messages that go with the error codes.
pub const ERR_UNKNOWN_COMMAND: &'static str = "Invalid request: command not found";

pub const ERR_NOT_ENOUGH_ARGS: &'static str = "Invalid request: not enough arguments";

pub const ERR_INVALID_ARGS: &'static str = "Invalid request: invalid command arguments";

pub const ERR_INVALID_SEQUENCE: &'static str = "Invalid request: invalid UTF-8 sequence";

pub const ERR_SOCKET_READ: &'static str = "Internal error: could not read from socket";

pub const ERR_UNKNOWN: &'static str = "Internal error: unknown error";

pub const ERR_NO_PARTITIONS_IN_RING: &'static str = "Internal error: no partition found";

pub const ERR_UNSUPPORTED_MASTER: &'static str =
    "Internal error: this command is not supported on this node (master)";

pub const ERR_UNSUPPORTED_PARTITION: &'static str =
    "Internal error: this command is not supported on this node (partition)";

pub const ERR_PARTITION_UNAVAILABLE: &'static str = "Internal error: partition unavailable";

/// What went wrong, as the numeric code carried in an `ERR` frame.
#[derive(Debug, Clone, Copy, PartialEq, Eq, Structural)]
pub enum ErrorCode {
    InvalidRequestCmd,
    NotEnoughArgs,
    InvalidRequestArg,
    InvalidSequence,
    FailedSocketRead,
    NoPartitionsInRing,
    UnsupportedCommandMaster,
    UnsupportedCommandPartition,
    PartitionUnavailable,
    Unknown,
}

impl ErrorCode {
    /// The number that stands for this code on the wire.
    pub open spec fn number(self) -> u8 {
        match self {
            ErrorCode::InvalidRequestCmd => 1,
            ErrorCode::NotEnoughArgs => 2,
            ErrorCode::InvalidRequestArg => 3,
            ErrorCode::InvalidSequence => 4,
            ErrorCode::FailedSocketRead => 5,
            ErrorCode::NoPartitionsInRing => 6,
            ErrorCode::UnsupportedCommandMaster => 7,
            ErrorCode::UnsupportedCommandPartition => 8,
            ErrorCode::PartitionUnavailable => 9,
            ErrorCode::Unknown => 10,
        }
    }

    /// The code that a wire number stands for; every number without a code
    /// of its own reads as `Unknown`.
    pub open spec fn of_number(value: u8) -> ErrorCode {
        if value == 1 {
            ErrorCode::InvalidRequestCmd
        } else if value == 2 {
            ErrorCode::NotEnoughArgs
        } else if value == 3 {
            ErrorCode::InvalidRequestArg
        } else if value == 4 {
            ErrorCode::InvalidSequence
        } else if value == 5 {
            ErrorCode::FailedSocketRead
        } else if value == 6 {
            ErrorCode::NoPartitionsInRing
        } else if value == 7 {
            ErrorCode::UnsupportedCommandMaster
        } else if value == 8 {
            ErrorCode::UnsupportedCommandPartition
        } else if value == 9 {
            ErrorCode::PartitionUnavailable
        } else {
            ErrorCode::Unknown
        }
    }

    /// The fixed message that accompanies this code.
    pub open spec fn message(self) -> Seq<char> {
        match self {
            ErrorCode::InvalidRequestCmd => ERR_UNKNOWN_COMMAND@,
            ErrorCode::NotEnoughArgs => ERR_NOT_ENOUGH_ARGS@,
            ErrorCode::InvalidRequestArg => ERR_INVALID_ARGS@,
            ErrorCode::InvalidSequence => ERR_INVALID_SEQUENCE@,
            ErrorCode::FailedSocketRead => ERR_SOCKET_READ@,
            ErrorCode::NoPartitionsInRing => ERR_NO_PARTITIONS_IN_RING@,
            ErrorCode::UnsupportedCommandMaster => ERR_UNSUPPORTED_MASTER@,
            ErrorCode::UnsupportedCommandPartition => ERR_UNSUPPORTED_PARTITION@,
            ErrorCode::PartitionUnavailable => ERR_PARTITION_UNAVAILABLE@,
            ErrorCode::Unknown => ERR_UNKNOWN@,
        }
    }

    /// The code that a wire number stands for.
    pub fn from_u8(value: u8) -> (code: ErrorCode)
        ensures
            code == ErrorCode::of_number(value),
    {
        match value {
            1 => ErrorCode::InvalidRequestCmd,
            2 => ErrorCode::NotEnoughArgs,
            3 => ErrorCode::InvalidRequestArg,
            4 => ErrorCode::InvalidSequence,
            5 => ErrorCode::FailedSocketRead,
            6 => ErrorCode::NoPartitionsInRing,
            7 => ErrorCode::UnsupportedCommandMaster,
            8 => ErrorCode::UnsupportedCommandPartition,
            9 => ErrorCode::PartitionUnavailable,
            _ => ErrorCode::Unknown,
        }
    }

    /// The wire number of this code.
    pub fn to_u8(&self) -> (value: u8)
        ensures
            value == self.number(),
            1 <= value <= 10,
    {
        match self {
            ErrorCode::InvalidRequestCmd => 1,
            ErrorCode::NotEnoughArgs => 2,
            ErrorCode::InvalidRequestArg => 3,
            ErrorCode::InvalidSequence => 4,
            ErrorCode::FailedSocketRead => 5,
            ErrorCode::NoPartitionsInRing => 6,
            ErrorCode::UnsupportedCommandMaster => 7,
            ErrorCode::UnsupportedCommandPartition => 8,
            ErrorCode::PartitionUnavailable => 9,
            ErrorCode::Unknown => 10,
        }
    }
}

/// Reading back the number of a code gives the code again.
pub proof fn lemma_code_number_round_trip(code: ErrorCode)
    ensures
        ErrorCode::of_number(code.number()) == code,
{
}

/// A protocol error: its code and the message shown to the peer.
#[derive(Debug, Clone)]
pub struct Error {
    pub code: ErrorCode,
    pub msg: String,
}

impl Error {
    /// An error is well formed when its message is the one fixed for its code.
    pub open spec fn wf(self) -> bool {
        self.msg@ == self.code.message()
    }

    /// The error of a code, with the message fixed for it.
    pub fn from_code(code: ErrorCode) -> (e: Error)
        ensures
            e.code == code,
            e.msg@ == code.message(),
            e.wf(),
    {
        let msg = match code {
            ErrorCode::InvalidRequestCmd => ERR_UNKNOWN_COMMAND.to_owned(),
            ErrorCode::NotEnoughArgs => ERR_NOT_ENOUGH_ARGS.to_owned(),
            ErrorCode::InvalidRequestArg => ERR_INVALID_ARGS.to_owned(),
            ErrorCode::InvalidSequence => ERR_INVALID_SEQUENCE.to_owned(),
            ErrorCode::FailedSocketRead => ERR_SOCKET_READ.to_owned(),
            ErrorCode::NoPartitionsInRing => ERR_NO_PARTITIONS_IN_RING.to_owned(),
            ErrorCode::UnsupportedCommandMaster => ERR_UNSUPPORTED_MASTER.to_owned(),
            ErrorCode::UnsupportedCommandPartition => ERR_UNSUPPORTED_PARTITION.to_owned(),
            ErrorCode::PartitionUnavailable => ERR_PARTITION_UNAVAILABLE.to_owned(),
            ErrorCode::Unknown => ERR_UNKNOWN.to_owned(),
        };
        Error { code, msg }
    }

    /// The error that a wire number stands for.
    pub fn from_u8(value: u8) -> (e: Error)
        ensures
            e.code == ErrorCode::of_number(value),
            e.msg@ == ErrorCode::of_number(value).message(),
    {
        Self::from_code(ErrorCode::from_u8(value))
    }

    /// The message of this error, as text.
    pub fn to_string(&self) -> (s: String)
        ensures
            s@ == self.msg@,
    {
        self.msg.clone()
    }
}

} // verus!
