//! Error taxonomy: one type per subsystem, so that a codec failure can never be
//! mistaken for a peer failure at the call site.
use vstd::prelude::*;

verus! {

/// Malformed bencode, or a bencode value of the wrong shape.
#[derive(Debug, Clone, Copy, PartialEq, Eq, Structural)]
pub enum BencodeError {
    /// The bytes do not follow the bencode grammar.
    Malformed,
    /// A dictionary lacks the key that was asked for.
    MissingKey,
    /// A value is not of the kind that was asked for.
    WrongType,
}

/// A torrent descriptor that cannot be used.
#[derive(Debug, Clone, Copy, PartialEq, Eq, Structural)]
pub enum TorrentError {
    /// The descriptor is not bencode, or a required field is absent or of the wrong kind.
    Bencode(BencodeError),
    /// The announce URL is not UTF-8 text.
    InvalidAnnounce,
    /// The piece hashes are not a whole number of 20-byte digests.
    InvalidPieces,
    /// A piece length is not positive, a file length is negative, or the
    /// total length does not fit in memory.
    InvalidLength,
    /// A file of a multi-file torrent has an empty path.
    EmptyPath,
}

/// A tracker answer that cannot be used.
#[derive(Debug, Clone, PartialEq, Eq)]
pub enum TrackerError {
    /// The answer is not bencode, or lacks a field, or a peer entry is malformed.
    Bencode(BencodeError),
    /// The tracker refused the announce, with this reason.
    Failure(Vec<u8>),
    /// A peer's port is outside `0..=65535`.
    InvalidPort,
    /// The announce interval is negative.
    InvalidInterval,
}

/// The model of a [`TrackerError`].
pub enum TrackerErrorModel {
    Bencode(BencodeError),
    Failure(Seq<u8>),
    InvalidPort,
    InvalidInterval,
}

impl View for TrackerError {
    type V = TrackerErrorModel;

    open spec fn view(&self) -> TrackerErrorModel {
        match self {
            TrackerError::Bencode(e) => TrackerErrorModel::Bencode(*e),
            TrackerError::Failure(reason) => TrackerErrorModel::Failure(reason@),
            TrackerError::InvalidPort => TrackerErrorModel::InvalidPort,
            TrackerError::InvalidInterval => TrackerErrorModel::InvalidInterval,
        }
    }
}

/// A failure that concerns one peer connection only.
#[derive(Debug, Clone, Copy, PartialEq, Eq, Structural)]
pub enum PeerError {
    /// The remote handshake is too short or names another torrent.
    Handshake,
    /// A frame is too short for its message kind.
    MalformedFrame,
    /// A frame carries a message id outside `0..=8`.
    UnknownMessage,
    /// The peer's address is an IPv6 literal, which this client does not dial.
    UnsupportedAddress,
    /// A block does not fit in the download buffer.
    OutOfBounds,
}

/// A failure of the torrent registry.
#[derive(Debug, Clone, Copy, PartialEq, Eq, Structural)]
pub enum AgentError {
    /// No torrent is registered under the given info-hash.
    FileNotFound,
}

} // verus!
