//! The blob store: where bytes live, how they are read, and how uploads are
//! staged and hashed.
pub mod algorithm;
pub mod hasher;
pub mod paths;
pub mod read;
pub mod store;
pub mod upload;
