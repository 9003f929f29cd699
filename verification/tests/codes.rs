use ironbus_server::codes::{EngineError, ErrorCode, StorageError, SubjectError, SublistError};

#[test]
fn the_named_codes_have_their_frozen_spelling() {
    // The vectors and external clients pin these exact strings: a rename must fail here.
    assert_eq!(
        ErrorCode::ERR_CUMULATIVE_ACK_NOT_ALLOWED.as_str(),
        "ERR_CUMULATIVE_ACK_NOT_ALLOWED"
    );
    assert_eq!(ErrorCode::ERR_ACK_NOT_OWNED.as_str(), "ERR_ACK_NOT_OWNED");
    assert_eq!(ErrorCode::OFFSET_TRIMMED.as_str(), "OFFSET_TRIMMED");
    assert_eq!(ErrorCode::OFFSET_COMPACTED.as_str(), "OFFSET_COMPACTED");
    assert_eq!(
        ErrorCode::ERR_PRODUCER_FENCED.as_str(),
        "ERR_PRODUCER_FENCED"
    );
    assert_eq!(
        ErrorCode::ERR_OUT_OF_ORDER_SEQUENCE.as_str(),
        "ERR_OUT_OF_ORDER_SEQUENCE"
    );
    assert_eq!(ErrorCode::DUPLICATE.as_str(), "DUPLICATE");
    assert_eq!(ErrorCode::OK.as_str(), "OK");
    assert_eq!(
        ErrorCode::ERR_TXN_CHECK_UNAUTHORIZED.as_str(),
        "ERR_TXN_CHECK_UNAUTHORIZED"
    );
}

#[test]
fn every_engine_error_maps_to_a_code() {
    // One representative per variant, so a NEW EngineError variant that forgets its code makes
    // `of_engine_error` non-exhaustive and fails to compile (the match has no wildcard).
    let cases: &[(EngineError, ErrorCode)] = &[
        (
            EngineError::CumulativeAckOnWorkGroup,
            ErrorCode::ERR_CUMULATIVE_ACK_NOT_ALLOWED,
        ),
        (
            EngineError::CumulativeAckOutOfRange {
                up_to: 9,
                earliest_retained: 0,
                durable_head: 3,
            },
            ErrorCode::ERR_CUMULATIVE_ACK_OUT_OF_RANGE,
        ),
        (
            EngineError::BroadcastGroupBusy {
                group: "g".to_string(),
            },
            ErrorCode::ERR_BROADCAST_GROUP_BUSY,
        ),
        (
            EngineError::BroadcastGroupNotNamed {
                group: String::new(),
            },
            ErrorCode::ERR_BROADCAST_GROUP_NOT_NAMED,
        ),
        (
            EngineError::TooManyGroups { max: 8 },
            ErrorCode::ERR_TOO_MANY_GROUPS,
        ),
        (
            EngineError::InvalidGroupName,
            ErrorCode::ERR_INVALID_GROUP_NAME,
        ),
        (
            EngineError::InvalidStreamName {
                name: "bad name".to_string(),
            },
            ErrorCode::ERR_INVALID_STREAM_NAME,
        ),
        (
            EngineError::UnknownStream {
                name: "ghost".to_string(),
            },
            ErrorCode::ERR_UNKNOWN_STREAM,
        ),
        (
            EngineError::MirrorReadOnly {
                name: "mirror-orders".to_string(),
            },
            ErrorCode::ERR_MIRROR_READ_ONLY,
        ),
        (
            EngineError::InvalidSubject(SubjectError::Empty),
            ErrorCode::ERR_INVALID_SUBJECT,
        ),
        (
            EngineError::BindRejected(SublistError::ForkLimitExceeded {
                worst_case: 2048,
                limit: 1024,
            }),
            ErrorCode::ERR_BIND_REJECTED,
        ),
        (
            EngineError::NoStreamForSubject {
                subject: "telemetry.cpu".to_string(),
            },
            ErrorCode::ERR_NO_STREAM_FOR_SUBJECT,
        ),
        (
            EngineError::AmbiguousSubject {
                subject: "order.us.created".to_string(),
                matched: 2,
            },
            ErrorCode::ERR_AMBIGUOUS_SUBJECT,
        ),
        (
            EngineError::GenerationExhausted,
            ErrorCode::ERR_GENERATION_EXHAUSTED,
        ),
        (
            EngineError::MissingRecord { offset: 4 },
            ErrorCode::ERR_MISSING_RECORD,
        ),
        (
            EngineError::ZeroMaxInFlight,
            ErrorCode::ERR_ZERO_MAX_IN_FLIGHT,
        ),
        (
            EngineError::Storage(StorageError::AtCapacity {
                durable_bytes: 64,
                cap: 32,
            }),
            ErrorCode::ERR_AT_CAPACITY,
        ),
        (
            EngineError::TxnCheckUnauthorized,
            ErrorCode::ERR_TXN_CHECK_UNAUTHORIZED,
        ),
        (
            EngineError::Storage(StorageError::WriterFrozen),
            ErrorCode::ERR_STORAGE,
        ),
        (
            EngineError::TooManyStreams { max: 4 },
            ErrorCode::ERR_TOO_MANY_STREAMS,
        ),
        (EngineError::Txn("aborted".to_string()), ErrorCode::ERR_TXN),
    ];
    for (err, expected) in cases {
        assert_eq!(err.code(), *expected, "wrong code for {err:?}");
    }
}

#[test]
fn only_a_storage_cap_is_at_capacity() {
    let full = EngineError::Storage(StorageError::AtCapacity {
        durable_bytes: 64,
        cap: 32,
    });
    assert!(full.is_at_capacity());
    assert!(!EngineError::Storage(StorageError::WriterFrozen).is_at_capacity());
    assert!(!EngineError::ZeroMaxInFlight.is_at_capacity());
    assert_eq!(full.code().as_str(), "ERR_AT_CAPACITY");
}

#[test]
fn no_two_codes_share_a_spelling() {
    let all = [
        ErrorCode::OK,
        ErrorCode::DUPLICATE,
        ErrorCode::OFFSET_TRIMMED,
        ErrorCode::OFFSET_COMPACTED,
        ErrorCode::ERR_CUMULATIVE_ACK_NOT_ALLOWED,
        ErrorCode::ERR_ACK_NOT_OWNED,
        ErrorCode::ERR_CUMULATIVE_ACK_OUT_OF_RANGE,
        ErrorCode::ERR_TOO_MANY_GROUPS,
        ErrorCode::ERR_TOO_MANY_STREAMS,
        ErrorCode::ERR_TXN,
        ErrorCode::ERR_TXN_CHECK_UNAUTHORIZED,
    ];
    for (i, a) in all.iter().enumerate() {
        for b in &all[i + 1..] {
            assert_ne!(a.as_str(), b.as_str());
        }
    }
}
