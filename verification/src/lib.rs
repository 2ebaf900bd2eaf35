//! Verified core of a node's protocol layer.
//!
//! The first part is the ledger of executed operations: a set of operation
//! identifiers with, for each, the slot at which it expires, an accumulator
//! hash that follows every insertion and removal, pruning by slot, and the
//! streaming of the ledger in parts for bootstrap, with the wire format of a
//! part.
//!
//! The second part is peer management: the database of known peers, the
//! wire format of announcements and of peer management messages, the
//! reactions to ticks, commands and messages, and the handshake that
//! authenticates a peer on a new connection. The connection, the keys and the
//! threads belong to the caller; the decisions are taken here.

pub mod accumulator;
pub mod executed_ops;
pub mod handshake;
pub mod handshake_laws;
pub mod hash;
pub mod id_set;
pub mod operation;
pub mod ops_codec;
pub mod ops_laws;
pub mod ops_model;
pub mod ops_wire;
pub mod peer_codec;
pub mod peer_db;
pub mod peer_handler;
pub mod peer_types;
pub mod peer_wire;
pub mod random;
pub mod slot;
pub mod streaming_laws;
pub mod streaming_step;
pub mod varint;
