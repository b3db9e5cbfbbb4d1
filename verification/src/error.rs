use vstd::prelude::*;

verus! {

/// Why an operation of this library failed.
#[derive(Clone, Copy, Debug, PartialEq, Eq, Structural)]
pub enum TorrentError {
    /// The bytes are not a bencoded value.
    MalformedInput,
    /// A metainfo file lacks a required key, or holds it in the wrong shape.
    SchemaError,
    /// The tracker could not be reached, or its answer could not be read.
    TrackerError,
    /// The peer answered the handshake for another torrent.
    HandshakeMismatch,
    /// The peer sent a message that breaks the wire protocol.
    ProtocolViolation,
    /// A piece does not hash to the digest the metainfo file gives for it.
    VerificationError,
    /// No peer is left that could supply the missing pieces.
    DownloadIncomplete,
}

} // verus!
