//! Downloads: of one piece from a peer, and of all pieces from many.

pub mod attempts;
pub mod laws;
pub mod piece;
pub mod queue;

pub use attempts::Attempts;
pub use piece::{
    accept_piece, verify_piece, AfterMessage, HashMismatch, PieceDownload, MAX_PIPELINE,
};
pub use queue::{choose_peers, piece_offset, DownloadError, PieceQueue, MAX_WORKERS};
