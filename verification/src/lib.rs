//! An iterative DNS resolver core: the wire-format codec with name
//! compression, the response classification and extraction logic, and the
//! server-ranking heuristic, all with verified contracts. Sockets and the
//! outer resolution loop live with the caller; this crate makes every
//! decision on plain bytes and values.

pub mod algorithm;
pub mod compression;
pub mod error;
pub mod message;
pub mod net;
pub mod server_info;
