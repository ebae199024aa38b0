//! A dependency-aware issue tracker: the planning graph over issues and typed
//! dependency edges, the views derived from it (ready work, blocked work,
//! dependency trees, epic closure, stale issues) and the content-addressed
//! reconciliation of a store with a portable log.
//!
//! The functions of the crate are verified against contracts that are
//! stated over mathematical views of the data. Two functions are taken on
//! trust and say so: the SHA-256 digest and the reading of the clock.
//!
//! - [`types`], [`validation`], [`hash`]: issues, edges and the other
//!   records; what makes an issue acceptable; the hash of its content.
//! - [`index`], [`graph`], [`depth_first`], [`cycles`], [`tree`],
//!   [`counts`]: the dependency graph of a snapshot, its cycles, its trees
//!   and the edge counts of its issues.
//! - [`ranking`], [`work`]: ready work, blocked issues, epics that can be
//!   closed and stale issues.
//! - [`store`], [`memory`], [`memory_links`], [`memory_tables`],
//!   [`memory_views`], [`search`]: the model of a store and a store that
//!   keeps everything in memory.
//! - [`sync`]: export to and import from a portable log.
//! - [`consistency`], [`hash_laws`]: what holds of a store at all times, and
//!   of the bytes that are hashed.
//! - [`storage`], [`text`], [`textmap`]: configuration, errors and the
//!   clock; notation of numbers; a small map of texts.

pub mod types;
pub mod text;
pub mod hash;
pub mod hash_laws;
pub mod validation;
pub mod index;
pub mod depth_first;
pub mod graph;
pub mod cycles;
pub mod tree;
pub mod counts;
pub mod ranking;
pub mod work;
pub mod textmap;
pub mod storage;
pub mod store;
pub mod memory;
pub mod memory_links;
pub mod memory_tables;
pub mod memory_views;
pub mod search;
pub mod sync;
pub mod consistency;
