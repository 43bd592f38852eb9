//! The handlers: what each request asks of a registry, and what it is answered.
pub mod api;
pub mod base;
pub mod blobs;
pub mod catalog;
pub mod common;
pub mod dispatch;
pub mod laws;
pub mod manifests;
pub mod pulls;
pub mod referrers;
pub mod tags;
pub mod uploads;
