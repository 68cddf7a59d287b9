//! Content-addressed peer-to-peer file synchronisation: the verified core.
//!
//! A serving peer keeps a sealed, content-addressed tree of host files; a
//! client asks trackers for peers, has the peers agree on the tree behind a
//! digest, and turns that tree into a plan of directory creations and
//! downloads that it then carries out with failover between peers.
//!
//! The library computes and decides; it neither reads files nor talks to the
//! network. Whoever uses it hands in what was read or received, as plain
//! values, and carries out what the library returns.
//!
//! * [`digest`]: MD5 digests in their wire form, over a stream of bytes.
//! * [`server`]: the virtual file system with its sealing and lookups, the
//!   tree handed out to clients, and the rules for answering requests.
//! * [`tracker`]: the registry of announced peers.
//! * [`downloader`]: peer discovery, tree agreement and action emission; the
//!   URL rotation, failover, transfer check and bounded dispatch that carry
//!   a plan out.
//! * [`utils`]: error aggregation and text helpers.
//!
//! Every function is verified against its contract. What is taken on trust
//! about code outside this crate is marked `Trusted` where it stands: the
//! `md5` crate's hashing in [`digest`], the final component of a path in
//! [`server::fs`], and the sharing of a peer list in [`downloader::planer`].

pub mod digest;
pub mod downloader;
pub mod server;
pub mod tracker;
pub mod utils;
