//! Cryptographic storage engine of an encrypted notes store.
//!
//! Pads, which are text notes or attached files, hang in a forest and lie
//! in one database file, every piece of content sealed under a key that is
//! derived from the user's password. This crate holds what decides and
//! computes; reading and writing the database and the files is the host's.
//!
//! - `crypto`: the envelope that seals one value, and the keys.
//! - `attachment`: the chunked format of a file pad's blob;
//!   `attachment_laws`: what holds of a blob written piece by piece.
//! - `tree`: rebuilding the forest from the flat rows of the store;
//!   `tree_laws`: what holds of that forest.
//! - `pad`: pads as they are cached, handed in and stored.
//! - `session`: the states of a session and its commands.
//! - `error`: the failure categories.

pub mod error;
pub mod crypto;
pub mod attachment;
pub mod attachment_laws;
pub mod tree;
pub mod tree_laws;
pub mod pad;
pub mod session;
