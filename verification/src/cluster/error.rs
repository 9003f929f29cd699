//! The typed errors of the metadata wire form.

use vstd::prelude::*;

use crate::text;

verus! {

/// Errors from decoding a metadata command or a metadata snapshot.
#[derive(Debug, Clone, Copy, PartialEq, Eq, Structural)]
pub enum DecodeError {
    /// The buffer ended before a fully-formed value was read.
    Truncated,
    /// The leading command tag is not a known variant.
    UnknownTag(u8),
    /// A node-role byte is not a known role.
    UnknownRole(u8),
    /// A length-prefixed field claimed more bytes than remain.
    BadLength,
    /// A string field was not valid UTF-8.
    BadUtf8,
    /// Bytes remained after a single value was decoded.
    TrailingBytes,
    /// A placement named a leader that is not in its own replica set.
    LeaderNotAReplica,
    /// A placement had an empty replica set.
    EmptyReplicaSet,
    /// A snapshot carried an unknown format version.
    UnknownSnapshotVersion(u8),
}

impl DecodeError {
    /// What the error says.
    pub open spec fn text(self) -> Seq<char> {
        match self {
            DecodeError::Truncated => "metadata command is truncated"@,
            DecodeError::UnknownTag(t) => "unknown metadata command tag "@ + text::decimal(
                t as nat,
            ),
            DecodeError::UnknownRole(r) => "unknown node role byte "@ + text::decimal(r as nat),
            DecodeError::BadLength => "metadata command length field overruns the buffer"@,
            DecodeError::BadUtf8 => "metadata command string field is not valid UTF-8"@,
            DecodeError::TrailingBytes => "trailing bytes after a metadata command"@,
            DecodeError::LeaderNotAReplica => "placement leader is not in its own replica set"@,
            DecodeError::EmptyReplicaSet => "placement has an empty replica set"@,
            DecodeError::UnknownSnapshotVersion(v) => {
                "unknown metadata snapshot format version "@ + text::decimal(v as nat)
            },
        }
    }

    /// The error as a message for an operator.
    #[must_use]
    pub fn message(self) -> (s: String)
        ensures
            s@ == self.text(),
    {
        match self {
            DecodeError::Truncated => "metadata command is truncated".to_owned(),
            DecodeError::UnknownTag(t) => text::followed_by(
                "unknown metadata command tag ",
                t as u64,
            ),
            DecodeError::UnknownRole(r) => text::followed_by("unknown node role byte ", r as u64),
            DecodeError::BadLength => {
                "metadata command length field overruns the buffer".to_owned()
            },
            DecodeError::BadUtf8 => "metadata command string field is not valid UTF-8".to_owned(),
            DecodeError::TrailingBytes => "trailing bytes after a metadata command".to_owned(),
            DecodeError::LeaderNotAReplica => {
                "placement leader is not in its own replica set".to_owned()
            },
            DecodeError::EmptyReplicaSet => "placement has an empty replica set".to_owned(),
            DecodeError::UnknownSnapshotVersion(v) => text::followed_by(
                "unknown metadata snapshot format version ",
                v as u64,
            ),
        }
    }
}


/// Every error says what went wrong, and the byte that did.
pub proof fn law_decode_errors_say_what_went_wrong(byte: u8)
    ensures
        DecodeError::Truncated.text() == "metadata command is truncated"@,
        DecodeError::UnknownTag(byte).text() == "unknown metadata command tag "@ + text::decimal(
            byte as nat,
        ),
        DecodeError::UnknownRole(byte).text() == "unknown node role byte "@ + text::decimal(
            byte as nat,
        ),
        DecodeError::BadLength.text() == "metadata command length field overruns the buffer"@,
        DecodeError::BadUtf8.text() == "metadata command string field is not valid UTF-8"@,
        DecodeError::TrailingBytes.text() == "trailing bytes after a metadata command"@,
        DecodeError::LeaderNotAReplica.text() == "placement leader is not in its own replica set"@,
        DecodeError::EmptyReplicaSet.text() == "placement has an empty replica set"@,
        DecodeError::UnknownSnapshotVersion(byte).text()
            == "unknown metadata snapshot format version "@ + text::decimal(byte as nat),
{
}

}
