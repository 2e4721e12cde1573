//! Trackers: what is asked of them, and what they answer.

pub mod address;
pub mod laws;
pub mod query;
pub mod response;
pub mod search;
pub mod udp;

pub use address::PeerAddr;
pub use query::{announce_url, generate_peer_id, peer_id_with, urlencode_binary};
pub use response::{parse_response, ResponseError, TrackerResponse};
pub use search::{tracker_kind, PeerSearch, TrackerKind};
pub use udp::{udp_endpoint, Awaited, EndpointError, UdpAnnounce, UdpError, UdpStep};
