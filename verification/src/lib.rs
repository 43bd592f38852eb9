//! Verified core of a container registry.
//!
//! Everything the registry decides stands here as executable code with a
//! contract: content digests and the binary keys they are stored under, the
//! metadata engine and the queries over it, the blob store's ranges and upload
//! sessions, and the HTTP surface's grammars, routing and answers. Reading
//! sockets and files is left to the program around this library.
#![allow(unused_imports)]

pub mod bytes;
pub mod digest;
pub mod error;
pub mod keys;
pub mod meta;
pub mod registry;
pub mod server;
pub mod storage;
pub mod table;
pub mod text;
pub mod time;
pub mod types;
