//! Transfers of content-addressed graphs of blocks between two stores, of which the receiving one
//! may already have a part.
//!
//! The receiving side explores its store and tells the sending side what it misses ([`receive`]).
//! The sending side walks its store and sends what is missing ([`send`]). Both are driven by
//! questions and answers, so that stores, caches and connections stay outside.
//!
//! What holds of whole runs stands in [`arrivals`] and [`departures`], of the order in which blocks are
//! sent and asked about in [`send_order`] and [`asking`], of CAR files in [`cuts`] and [`framing`], of
//! blocks and their links in [`cbor_items`], of single calls in [`verifying`] and [`beginnings`], and of
//! whole transfers in [`transfer`] and [`rounds`].

pub mod arrivals;
pub mod asking;
pub mod beginnings;
pub mod block_walk;
pub mod bloom;
pub mod buffered;
pub mod car;
pub mod cbor;
pub mod cbor_items;
pub mod cid;
pub mod cid_set;
pub mod common;
pub mod cuts;
pub mod dag;
pub mod departures;
pub mod descriptions;
pub mod error;
pub mod exploration;
pub mod framing;
pub mod incremental_verification;
pub mod ipld;
pub mod messages;
pub mod payload;
pub mod pull;
pub mod receive;
pub mod receiver_state;
pub mod receiving;
pub mod rounds;
pub mod send;
pub mod send_order;
pub mod sending;
pub mod subgraph_roots;
pub mod transfer;
pub mod verifying;
pub mod walk_order;
