//! Building blocks of a small peer cluster: the chunk wire frame and the
//! reliable transfer built on it, the per-request leader election, and the
//! merge of replicated JSON documents.
//!
//! Sockets, timers and files belong to the program around the library, which
//! feeds events in and carries actions out.

pub mod bytes;
pub mod chunk;
pub mod coordinator;
pub mod decimal;
pub mod election;
pub mod fault;
pub mod gallery;
pub mod json;
pub mod jsontext;
pub mod ranking;
pub mod receiver;
pub mod reconcile;
pub mod sender;
pub mod sync;
pub mod transfer;
pub mod wire;
