//! The registry's queries and plans over the metadata store.
pub mod codec;
pub mod codes;
pub mod cosign;
pub mod counter_laws;
pub mod counters;
pub mod delete;
pub mod delete_laws;
pub mod discovery;
pub mod discovery_laws;
pub mod error;
pub mod reference;
pub mod referrer_laws;
pub mod referrers;
pub mod registry;
pub mod suffix;
