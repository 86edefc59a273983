//! A BitTorrent client library: the bencode codec, the torrent descriptor, the
//! tracker protocol, the peer wire protocol and the download bookkeeping.
pub mod agent;
pub mod decode;
pub mod encode;
pub mod error;
pub mod laws;
pub mod peer;
pub mod text;
pub mod torrent;
pub mod tracker;
pub mod value;

pub use agent::{Agent, DownloadBuffer, DownloadSession, PeerStatus, SessionAction, SessionEvent};
pub use decode::{decode, Decoder, ValueParser};
pub use encode::{encode, Encoder};
pub use error::{AgentError, BencodeError, PeerError, TorrentError, TrackerError};
pub use peer::{block_request, frame_length, has_bit, plan_requests, set_bit, try_from_slice, Peer, PeerHandshake, PeerMessage, PeerState, BLOCK_LENGTH};
pub use torrent::{File, Torrent, TorrentInfo};
pub use tracker::{generate_peer_id, Tracker, TrackerRequest, TrackerResponse};
pub use value::{ByteString, Dictionary, FromValue, Integer, List, Value};
