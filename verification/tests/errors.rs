use hitormiss::error::{Error, ErrorCode};

fn all_codes() -> Vec<(u8, ErrorCode, &'static str)> {
    vec![
        (1, ErrorCode::InvalidRequestCmd, "Invalid request: command not found"),
        (2, ErrorCode::NotEnoughArgs, "Invalid request: not enough arguments"),
        (3, ErrorCode::InvalidRequestArg, "Invalid request: invalid command arguments"),
        (4, ErrorCode::InvalidSequence, "Invalid request: invalid UTF-8 sequence"),
        (5, ErrorCode::FailedSocketRead, "Internal error: could not read from socket"),
        (6, ErrorCode::NoPartitionsInRing, "Internal error: no partition found"),
        (
            7,
            ErrorCode::UnsupportedCommandMaster,
            "Internal error: this command is not supported on this node (master)",
        ),
        (
            8,
            ErrorCode::UnsupportedCommandPartition,
            "Internal error: this command is not supported on this node (partition)",
        ),
        (9, ErrorCode::PartitionUnavailable, "Internal error: partition unavailable"),
        (10, ErrorCode::Unknown, "Internal error: unknown error"),
    ]
}

#[test]
fn every_code_has_its_number() {
    for (number, code, _) in all_codes() {
        assert_eq!(code.to_u8(), number);
        assert_eq!(ErrorCode::from_u8(number), code);
    }
}

#[test]
fn number_of_a_code_reads_back_as_the_code() {
    for (_, code, _) in all_codes() {
        assert_eq!(ErrorCode::from_u8(code.to_u8()), code);
    }
}

#[test]
fn numbers_without_a_code_are_unknown() {
    assert_eq!(ErrorCode::from_u8(0), ErrorCode::Unknown);
    for number in 11..=255u8 {
        assert_eq!(ErrorCode::from_u8(number), ErrorCode::Unknown);
    }
}

#[test]
fn every_code_has_its_message() {
    for (number, code, message) in all_codes() {
        let e = Error::from_code(code);
        assert_eq!(e.code, code);
        assert_eq!(e.msg, message);
        assert_eq!(e.to_string(), message);
        let f = Error::from_u8(number);
        assert_eq!(f.code, code);
        assert_eq!(f.msg, message);
    }
}

#[test]
fn error_from_unlisted_number_is_unknown() {
    let e = Error::from_u8(200);
    assert_eq!(e.code, ErrorCode::Unknown);
    assert_eq!(e.msg, "Internal error: unknown error");
}
