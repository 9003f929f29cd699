//! Stable outcome codes: the frozen tokens by which clients and conformance vectors name what the
//! engine did.

use vstd::prelude::*;

verus! {

/// A stable outcome code. The `ERR_*` codes name a rejection; the bare ones name an observable
/// signal that is no error. The spelling of each is frozen.
#[allow(non_camel_case_types)]
#[derive(Clone, Copy, Debug, PartialEq, Eq, Hash, Structural)]
pub enum ErrorCode {
    /// A verb succeeded.
    OK,
    /// A produce was already in the producer's window; the original offset was returned.
    DUPLICATE,
    /// A read fell below the retention horizon.
    OFFSET_TRIMMED,
    /// A read crossed a hole left by key compaction.
    OFFSET_COMPACTED,
    /// A cumulative ack on a work-queue group.
    ERR_CUMULATIVE_ACK_NOT_ALLOWED,
    /// An ack of a delivery that the acker does not own.
    ERR_ACK_NOT_OWNED,
    /// A cumulative ack outside the retained range.
    ERR_CUMULATIVE_ACK_OUT_OF_RANGE,
    /// A broadcast group already has its member.
    ERR_BROADCAST_GROUP_BUSY,
    /// A broadcast group needs a name.
    ERR_BROADCAST_GROUP_NOT_NAMED,
    /// The group limit is reached.
    ERR_TOO_MANY_GROUPS,
    /// The stream limit is reached.
    ERR_TOO_MANY_STREAMS,
    /// A group name is malformed.
    ERR_INVALID_GROUP_NAME,
    /// A stream name is malformed.
    ERR_INVALID_STREAM_NAME,
    /// There is no such stream.
    ERR_UNKNOWN_STREAM,
    /// A mirror takes no writes.
    ERR_MIRROR_READ_ONLY,
    /// A subject is malformed.
    ERR_INVALID_SUBJECT,
    /// A subject binding was refused.
    ERR_BIND_REJECTED,
    /// No stream is bound to the subject.
    ERR_NO_STREAM_FOR_SUBJECT,
    /// More than one stream is bound to the subject.
    ERR_AMBIGUOUS_SUBJECT,
    /// A newer producer has taken over.
    ERR_PRODUCER_FENCED,
    /// A producer sequence number arrived out of order.
    ERR_OUT_OF_ORDER_SEQUENCE,
    /// The storage cap is reached.
    ERR_AT_CAPACITY,
    /// The delivery generations are used up.
    ERR_GENERATION_EXHAUSTED,
    /// A record that should be there is not.
    ERR_MISSING_RECORD,
    /// An in-flight limit of zero.
    ERR_ZERO_MAX_IN_FLIGHT,
    /// Any other storage failure.
    ERR_STORAGE,
    /// A transaction failed.
    ERR_TXN,
    /// A transaction check by somebody who may not make it.
    ERR_TXN_CHECK_UNAUTHORIZED,
}

impl ErrorCode {
    /// The frozen spelling of a code.
    pub open spec fn spelling(self) -> Seq<char> {
        match self {
            ErrorCode::OK => "OK"@,
            ErrorCode::DUPLICATE => "DUPLICATE"@,
            ErrorCode::OFFSET_TRIMMED => "OFFSET_TRIMMED"@,
            ErrorCode::OFFSET_COMPACTED => "OFFSET_COMPACTED"@,
            ErrorCode::ERR_CUMULATIVE_ACK_NOT_ALLOWED => "ERR_CUMULATIVE_ACK_NOT_ALLOWED"@,
            ErrorCode::ERR_ACK_NOT_OWNED => "ERR_ACK_NOT_OWNED"@,
            ErrorCode::ERR_CUMULATIVE_ACK_OUT_OF_RANGE => "ERR_CUMULATIVE_ACK_OUT_OF_RANGE"@,
            ErrorCode::ERR_BROADCAST_GROUP_BUSY => "ERR_BROADCAST_GROUP_BUSY"@,
            ErrorCode::ERR_BROADCAST_GROUP_NOT_NAMED => "ERR_BROADCAST_GROUP_NOT_NAMED"@,
            ErrorCode::ERR_TOO_MANY_GROUPS => "ERR_TOO_MANY_GROUPS"@,
            ErrorCode::ERR_TOO_MANY_STREAMS => "ERR_TOO_MANY_STREAMS"@,
            ErrorCode::ERR_INVALID_GROUP_NAME => "ERR_INVALID_GROUP_NAME"@,
            ErrorCode::ERR_INVALID_STREAM_NAME => "ERR_INVALID_STREAM_NAME"@,
            ErrorCode::ERR_UNKNOWN_STREAM => "ERR_UNKNOWN_STREAM"@,
            ErrorCode::ERR_MIRROR_READ_ONLY => "ERR_MIRROR_READ_ONLY"@,
            ErrorCode::ERR_INVALID_SUBJECT => "ERR_INVALID_SUBJECT"@,
            ErrorCode::ERR_BIND_REJECTED => "ERR_BIND_REJECTED"@,
            ErrorCode::ERR_NO_STREAM_FOR_SUBJECT => "ERR_NO_STREAM_FOR_SUBJECT"@,
            ErrorCode::ERR_AMBIGUOUS_SUBJECT => "ERR_AMBIGUOUS_SUBJECT"@,
            ErrorCode::ERR_PRODUCER_FENCED => "ERR_PRODUCER_FENCED"@,
            ErrorCode::ERR_OUT_OF_ORDER_SEQUENCE => "ERR_OUT_OF_ORDER_SEQUENCE"@,
            ErrorCode::ERR_AT_CAPACITY => "ERR_AT_CAPACITY"@,
            ErrorCode::ERR_GENERATION_EXHAUSTED => "ERR_GENERATION_EXHAUSTED"@,
            ErrorCode::ERR_MISSING_RECORD => "ERR_MISSING_RECORD"@,
            ErrorCode::ERR_ZERO_MAX_IN_FLIGHT => "ERR_ZERO_MAX_IN_FLIGHT"@,
            ErrorCode::ERR_STORAGE => "ERR_STORAGE"@,
            ErrorCode::ERR_TXN => "ERR_TXN"@,
            ErrorCode::ERR_TXN_CHECK_UNAUTHORIZED => "ERR_TXN_CHECK_UNAUTHORIZED"@,
        }
    }

    /// The stable string spelling of this code.
    #[must_use]
    pub fn as_str(self) -> (s: &'static str)
        ensures
            s@ == self.spelling(),
    {
        match self {
            ErrorCode::OK => "OK",
            ErrorCode::DUPLICATE => "DUPLICATE",
            ErrorCode::OFFSET_TRIMMED => "OFFSET_TRIMMED",
            ErrorCode::OFFSET_COMPACTED => "OFFSET_COMPACTED",
            ErrorCode::ERR_CUMULATIVE_ACK_NOT_ALLOWED => "ERR_CUMULATIVE_ACK_NOT_ALLOWED",
            ErrorCode::ERR_ACK_NOT_OWNED => "ERR_ACK_NOT_OWNED",
            ErrorCode::ERR_CUMULATIVE_ACK_OUT_OF_RANGE => "ERR_CUMULATIVE_ACK_OUT_OF_RANGE",
            ErrorCode::ERR_BROADCAST_GROUP_BUSY => "ERR_BROADCAST_GROUP_BUSY",
            ErrorCode::ERR_BROADCAST_GROUP_NOT_NAMED => "ERR_BROADCAST_GROUP_NOT_NAMED",
            ErrorCode::ERR_TOO_MANY_GROUPS => "ERR_TOO_MANY_GROUPS",
            ErrorCode::ERR_TOO_MANY_STREAMS => "ERR_TOO_MANY_STREAMS",
            ErrorCode::ERR_INVALID_GROUP_NAME => "ERR_INVALID_GROUP_NAME",
            ErrorCode::ERR_INVALID_STREAM_NAME => "ERR_INVALID_STREAM_NAME",
            ErrorCode::ERR_UNKNOWN_STREAM => "ERR_UNKNOWN_STREAM",
            ErrorCode::ERR_MIRROR_READ_ONLY => "ERR_MIRROR_READ_ONLY",
            ErrorCode::ERR_INVALID_SUBJECT => "ERR_INVALID_SUBJECT",
            ErrorCode::ERR_BIND_REJECTED => "ERR_BIND_REJECTED",
            ErrorCode::ERR_NO_STREAM_FOR_SUBJECT => "ERR_NO_STREAM_FOR_SUBJECT",
            ErrorCode::ERR_AMBIGUOUS_SUBJECT => "ERR_AMBIGUOUS_SUBJECT",
            ErrorCode::ERR_PRODUCER_FENCED => "ERR_PRODUCER_FENCED",
            ErrorCode::ERR_OUT_OF_ORDER_SEQUENCE => "ERR_OUT_OF_ORDER_SEQUENCE",
            ErrorCode::ERR_AT_CAPACITY => "ERR_AT_CAPACITY",
            ErrorCode::ERR_GENERATION_EXHAUSTED => "ERR_GENERATION_EXHAUSTED",
            ErrorCode::ERR_MISSING_RECORD => "ERR_MISSING_RECORD",
            ErrorCode::ERR_ZERO_MAX_IN_FLIGHT => "ERR_ZERO_MAX_IN_FLIGHT",
            ErrorCode::ERR_STORAGE => "ERR_STORAGE",
            ErrorCode::ERR_TXN => "ERR_TXN",
            ErrorCode::ERR_TXN_CHECK_UNAUTHORIZED => "ERR_TXN_CHECK_UNAUTHORIZED",
        }
    }

    /// The code of an engine error.
    pub open spec fn code_of(error: EngineError) -> ErrorCode {
        match error {
            EngineError::CumulativeAckOnWorkGroup => ErrorCode::ERR_CUMULATIVE_ACK_NOT_ALLOWED,
            EngineError::CumulativeAckOutOfRange { .. } => ErrorCode::ERR_CUMULATIVE_ACK_OUT_OF_RANGE,
            EngineError::BroadcastGroupBusy { .. } => ErrorCode::ERR_BROADCAST_GROUP_BUSY,
            EngineError::BroadcastGroupNotNamed { .. } => ErrorCode::ERR_BROADCAST_GROUP_NOT_NAMED,
            EngineError::TooManyGroups { .. } => ErrorCode::ERR_TOO_MANY_GROUPS,
            EngineError::TooManyStreams { .. } => ErrorCode::ERR_TOO_MANY_STREAMS,
            EngineError::InvalidGroupName => ErrorCode::ERR_INVALID_GROUP_NAME,
            EngineError::InvalidStreamName { .. } => ErrorCode::ERR_INVALID_STREAM_NAME,
            EngineError::MirrorReadOnly { .. } => ErrorCode::ERR_MIRROR_READ_ONLY,
            EngineError::UnknownStream { .. } => ErrorCode::ERR_UNKNOWN_STREAM,
            EngineError::InvalidSubject(_) => ErrorCode::ERR_INVALID_SUBJECT,
            EngineError::BindRejected(_) => ErrorCode::ERR_BIND_REJECTED,
            EngineError::NoStreamForSubject { .. } => ErrorCode::ERR_NO_STREAM_FOR_SUBJECT,
            EngineError::AmbiguousSubject { .. } => ErrorCode::ERR_AMBIGUOUS_SUBJECT,
            EngineError::GenerationExhausted => ErrorCode::ERR_GENERATION_EXHAUSTED,
            EngineError::MissingRecord { .. } => ErrorCode::ERR_MISSING_RECORD,
            EngineError::ZeroMaxInFlight => ErrorCode::ERR_ZERO_MAX_IN_FLIGHT,
            EngineError::Txn(_) => ErrorCode::ERR_TXN,
            EngineError::TxnCheckUnauthorized => ErrorCode::ERR_TXN_CHECK_UNAUTHORIZED,
            EngineError::Storage(StorageError::AtCapacity { .. }) => ErrorCode::ERR_AT_CAPACITY,
            EngineError::Storage(_) => ErrorCode::ERR_STORAGE,
        }
    }

    /// The code of an engine error. Every error has one; a storage failure at capacity has its
    /// own.
    #[must_use]
    pub fn of_engine_error(error: &EngineError) -> (c: ErrorCode)
        ensures
            c == ErrorCode::code_of(*error),
    {
        match error {
            EngineError::CumulativeAckOnWorkGroup => ErrorCode::ERR_CUMULATIVE_ACK_NOT_ALLOWED,
            EngineError::CumulativeAckOutOfRange { .. } => ErrorCode::ERR_CUMULATIVE_ACK_OUT_OF_RANGE,
            EngineError::BroadcastGroupBusy { .. } => ErrorCode::ERR_BROADCAST_GROUP_BUSY,
            EngineError::BroadcastGroupNotNamed { .. } => ErrorCode::ERR_BROADCAST_GROUP_NOT_NAMED,
            EngineError::TooManyGroups { .. } => ErrorCode::ERR_TOO_MANY_GROUPS,
            EngineError::TooManyStreams { .. } => ErrorCode::ERR_TOO_MANY_STREAMS,
            EngineError::InvalidGroupName => ErrorCode::ERR_INVALID_GROUP_NAME,
            EngineError::InvalidStreamName { .. } => ErrorCode::ERR_INVALID_STREAM_NAME,
            EngineError::MirrorReadOnly { .. } => ErrorCode::ERR_MIRROR_READ_ONLY,
            EngineError::UnknownStream { .. } => ErrorCode::ERR_UNKNOWN_STREAM,
            EngineError::InvalidSubject(_) => ErrorCode::ERR_INVALID_SUBJECT,
            EngineError::BindRejected(_) => ErrorCode::ERR_BIND_REJECTED,
            EngineError::NoStreamForSubject { .. } => ErrorCode::ERR_NO_STREAM_FOR_SUBJECT,
            EngineError::AmbiguousSubject { .. } => ErrorCode::ERR_AMBIGUOUS_SUBJECT,
            EngineError::GenerationExhausted => ErrorCode::ERR_GENERATION_EXHAUSTED,
            EngineError::MissingRecord { .. } => ErrorCode::ERR_MISSING_RECORD,
            EngineError::ZeroMaxInFlight => ErrorCode::ERR_ZERO_MAX_IN_FLIGHT,
            EngineError::Txn(_) => ErrorCode::ERR_TXN,
            EngineError::TxnCheckUnauthorized => ErrorCode::ERR_TXN_CHECK_UNAUTHORIZED,
            EngineError::Storage(_) => {
                if error.is_at_capacity() {
                    ErrorCode::ERR_AT_CAPACITY
                } else {
                    ErrorCode::ERR_STORAGE
                }
            },
        }
    }
}

/// A malformed subject.
#[derive(Debug, Clone, PartialEq, Eq)]
pub enum SubjectError {
    /// The subject is empty.
    Empty,
    /// Any other defect.
    Malformed(String),
}

/// A refused subject binding.
#[derive(Debug, Clone, PartialEq, Eq)]
pub enum SublistError {
    /// The binding could fork a match beyond the limit.
    ForkLimitExceeded { worst_case: u64, limit: u64 },
}

/// A storage failure.
#[derive(Debug, Clone, PartialEq, Eq)]
pub enum StorageError {
    /// The storage cap is reached.
    AtCapacity { durable_bytes: u64, cap: u64 },
    /// The writer is frozen.
    WriterFrozen,
    /// Any other failure.
    Failed(String),
}

/// Why the engine refused a verb.
#[derive(Debug, Clone, PartialEq, Eq)]
pub enum EngineError {
    CumulativeAckOnWorkGroup,
    CumulativeAckOutOfRange { up_to: u64, earliest_retained: u64, durable_head: u64 },
    BroadcastGroupBusy { group: String },
    BroadcastGroupNotNamed { group: String },
    TooManyGroups { max: usize },
    TooManyStreams { max: usize },
    InvalidGroupName,
    InvalidStreamName { name: String },
    MirrorReadOnly { name: String },
    UnknownStream { name: String },
    InvalidSubject(SubjectError),
    BindRejected(SublistError),
    NoStreamForSubject { subject: String },
    AmbiguousSubject { subject: String, matched: usize },
    GenerationExhausted,
    MissingRecord { offset: u64 },
    ZeroMaxInFlight,
    Txn(String),
    TxnCheckUnauthorized,
    Storage(StorageError),
}

impl EngineError {
    /// Whether the error is a storage failure at capacity.
    #[must_use]
    pub fn is_at_capacity(&self) -> (r: bool)
        ensures
            r == (*self matches EngineError::Storage(StorageError::AtCapacity { .. })),
    {
        match self {
            EngineError::Storage(StorageError::AtCapacity { .. }) => true,
            _ => false,
        }
    }

    /// The stable outcome code of this error.
    #[must_use]
    pub fn code(&self) -> (c: ErrorCode)
        ensures
            c == ErrorCode::code_of(*self),
    {
        ErrorCode::of_engine_error(self)
    }
}

/// Codes are told apart by their spelling alone.
pub proof fn law_spellings_are_distinct(a: ErrorCode, b: ErrorCode)
    requires
        a.spelling() == b.spelling(),
    ensures
        a == b,
{
    reveal_strlit("OK");
    reveal_strlit("DUPLICATE");
    reveal_strlit("OFFSET_TRIMMED");
    reveal_strlit("OFFSET_COMPACTED");
    reveal_strlit("ERR_CUMULATIVE_ACK_NOT_ALLOWED");
    reveal_strlit("ERR_ACK_NOT_OWNED");
    reveal_strlit("ERR_CUMULATIVE_ACK_OUT_OF_RANGE");
    reveal_strlit("ERR_BROADCAST_GROUP_BUSY");
    reveal_strlit("ERR_BROADCAST_GROUP_NOT_NAMED");
    reveal_strlit("ERR_TOO_MANY_GROUPS");
    reveal_strlit("ERR_TOO_MANY_STREAMS");
    reveal_strlit("ERR_INVALID_GROUP_NAME");
    reveal_strlit("ERR_INVALID_STREAM_NAME");
    reveal_strlit("ERR_UNKNOWN_STREAM");
    reveal_strlit("ERR_MIRROR_READ_ONLY");
    reveal_strlit("ERR_INVALID_SUBJECT");
    reveal_strlit("ERR_BIND_REJECTED");
    reveal_strlit("ERR_NO_STREAM_FOR_SUBJECT");
    reveal_strlit("ERR_AMBIGUOUS_SUBJECT");
    reveal_strlit("ERR_PRODUCER_FENCED");
    reveal_strlit("ERR_OUT_OF_ORDER_SEQUENCE");
    reveal_strlit("ERR_AT_CAPACITY");
    reveal_strlit("ERR_GENERATION_EXHAUSTED");
    reveal_strlit("ERR_MISSING_RECORD");
    reveal_strlit("ERR_ZERO_MAX_IN_FLIGHT");
    reveal_strlit("ERR_STORAGE");
    reveal_strlit("ERR_TXN");
    reveal_strlit("ERR_TXN_CHECK_UNAUTHORIZED");
    let x = a.spelling();
    let y = b.spelling();
    assert(x.len() == y.len());
    assert(x[4] == y[4]);
}


/// Every code is spelled as its own name.
pub proof fn law_codes_are_spelled_as_named(c: ErrorCode)
    ensures
        c == ErrorCode::OK ==> c.spelling() == "OK"@,
        c == ErrorCode::DUPLICATE ==> c.spelling() == "DUPLICATE"@,
        c == ErrorCode::OFFSET_TRIMMED ==> c.spelling() == "OFFSET_TRIMMED"@,
        c == ErrorCode::OFFSET_COMPACTED ==> c.spelling() == "OFFSET_COMPACTED"@,
        c == ErrorCode::ERR_CUMULATIVE_ACK_NOT_ALLOWED ==> c.spelling() == "ERR_CUMULATIVE_ACK_NOT_ALLOWED"@,
        c == ErrorCode::ERR_ACK_NOT_OWNED ==> c.spelling() == "ERR_ACK_NOT_OWNED"@,
        c == ErrorCode::ERR_CUMULATIVE_ACK_OUT_OF_RANGE ==> c.spelling() == "ERR_CUMULATIVE_ACK_OUT_OF_RANGE"@,
        c == ErrorCode::ERR_BROADCAST_GROUP_BUSY ==> c.spelling() == "ERR_BROADCAST_GROUP_BUSY"@,
        c == ErrorCode::ERR_BROADCAST_GROUP_NOT_NAMED ==> c.spelling() == "ERR_BROADCAST_GROUP_NOT_NAMED"@,
        c == ErrorCode::ERR_TOO_MANY_GROUPS ==> c.spelling() == "ERR_TOO_MANY_GROUPS"@,
        c == ErrorCode::ERR_TOO_MANY_STREAMS ==> c.spelling() == "ERR_TOO_MANY_STREAMS"@,
        c == ErrorCode::ERR_INVALID_GROUP_NAME ==> c.spelling() == "ERR_INVALID_GROUP_NAME"@,
        c == ErrorCode::ERR_INVALID_STREAM_NAME ==> c.spelling() == "ERR_INVALID_STREAM_NAME"@,
        c == ErrorCode::ERR_UNKNOWN_STREAM ==> c.spelling() == "ERR_UNKNOWN_STREAM"@,
        c == ErrorCode::ERR_MIRROR_READ_ONLY ==> c.spelling() == "ERR_MIRROR_READ_ONLY"@,
        c == ErrorCode::ERR_INVALID_SUBJECT ==> c.spelling() == "ERR_INVALID_SUBJECT"@,
        c == ErrorCode::ERR_BIND_REJECTED ==> c.spelling() == "ERR_BIND_REJECTED"@,
        c == ErrorCode::ERR_NO_STREAM_FOR_SUBJECT ==> c.spelling() == "ERR_NO_STREAM_FOR_SUBJECT"@,
        c == ErrorCode::ERR_AMBIGUOUS_SUBJECT ==> c.spelling() == "ERR_AMBIGUOUS_SUBJECT"@,
        c == ErrorCode::ERR_PRODUCER_FENCED ==> c.spelling() == "ERR_PRODUCER_FENCED"@,
        c == ErrorCode::ERR_OUT_OF_ORDER_SEQUENCE ==> c.spelling() == "ERR_OUT_OF_ORDER_SEQUENCE"@,
        c == ErrorCode::ERR_AT_CAPACITY ==> c.spelling() == "ERR_AT_CAPACITY"@,
        c == ErrorCode::ERR_GENERATION_EXHAUSTED ==> c.spelling() == "ERR_GENERATION_EXHAUSTED"@,
        c == ErrorCode::ERR_MISSING_RECORD ==> c.spelling() == "ERR_MISSING_RECORD"@,
        c == ErrorCode::ERR_ZERO_MAX_IN_FLIGHT ==> c.spelling() == "ERR_ZERO_MAX_IN_FLIGHT"@,
        c == ErrorCode::ERR_STORAGE ==> c.spelling() == "ERR_STORAGE"@,
        c == ErrorCode::ERR_TXN ==> c.spelling() == "ERR_TXN"@,
        c == ErrorCode::ERR_TXN_CHECK_UNAUTHORIZED ==> c.spelling() == "ERR_TXN_CHECK_UNAUTHORIZED"@,
{
}

/// Every engine error has the code of its kind; of the storage failures one at capacity has its
/// own, and all others share one.
pub proof fn law_errors_have_the_code_of_their_kind(e: EngineError)
    ensures
        e is CumulativeAckOnWorkGroup ==> ErrorCode::code_of(e) == ErrorCode::ERR_CUMULATIVE_ACK_NOT_ALLOWED,
        e is CumulativeAckOutOfRange ==> ErrorCode::code_of(e) == ErrorCode::ERR_CUMULATIVE_ACK_OUT_OF_RANGE,
        e is BroadcastGroupBusy ==> ErrorCode::code_of(e) == ErrorCode::ERR_BROADCAST_GROUP_BUSY,
        e is BroadcastGroupNotNamed ==> ErrorCode::code_of(e) == ErrorCode::ERR_BROADCAST_GROUP_NOT_NAMED,
        e is TooManyGroups ==> ErrorCode::code_of(e) == ErrorCode::ERR_TOO_MANY_GROUPS,
        e is TooManyStreams ==> ErrorCode::code_of(e) == ErrorCode::ERR_TOO_MANY_STREAMS,
        e is InvalidGroupName ==> ErrorCode::code_of(e) == ErrorCode::ERR_INVALID_GROUP_NAME,
        e is InvalidStreamName ==> ErrorCode::code_of(e) == ErrorCode::ERR_INVALID_STREAM_NAME,
        e is MirrorReadOnly ==> ErrorCode::code_of(e) == ErrorCode::ERR_MIRROR_READ_ONLY,
        e is UnknownStream ==> ErrorCode::code_of(e) == ErrorCode::ERR_UNKNOWN_STREAM,
        e is InvalidSubject ==> ErrorCode::code_of(e) == ErrorCode::ERR_INVALID_SUBJECT,
        e is BindRejected ==> ErrorCode::code_of(e) == ErrorCode::ERR_BIND_REJECTED,
        e is NoStreamForSubject ==> ErrorCode::code_of(e) == ErrorCode::ERR_NO_STREAM_FOR_SUBJECT,
        e is AmbiguousSubject ==> ErrorCode::code_of(e) == ErrorCode::ERR_AMBIGUOUS_SUBJECT,
        e is GenerationExhausted ==> ErrorCode::code_of(e) == ErrorCode::ERR_GENERATION_EXHAUSTED,
        e is MissingRecord ==> ErrorCode::code_of(e) == ErrorCode::ERR_MISSING_RECORD,
        e is ZeroMaxInFlight ==> ErrorCode::code_of(e) == ErrorCode::ERR_ZERO_MAX_IN_FLIGHT,
        e is Txn ==> ErrorCode::code_of(e) == ErrorCode::ERR_TXN,
        e is TxnCheckUnauthorized ==> ErrorCode::code_of(e) == ErrorCode::ERR_TXN_CHECK_UNAUTHORIZED,
        e matches EngineError::Storage(s) ==> (s is AtCapacity <==> ErrorCode::code_of(e)
            == ErrorCode::ERR_AT_CAPACITY),
        e matches EngineError::Storage(s) ==> (!(s is AtCapacity) <==> ErrorCode::code_of(e)
            == ErrorCode::ERR_STORAGE),
        ErrorCode::code_of(e) != ErrorCode::OK,
{
}

}
