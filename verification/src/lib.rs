//! Per-partition message deduplication keyed on a user header.
//!
//! A topic opts in with a window and a header. Within the window, the first
//! message carrying a given header value is appended and later ones are
//! dropped.
//!
//! # Where decisions happen
//!
//! Only the partition primary decides, immediately before a request becomes a
//! prepare ([`batch`]). Dropped messages are removed from the batch there, so
//! the decision is part of the replicated payload and backups apply it without
//! consulting any index.
//!
//! # Committed and pending
//!
//! The index ([`index`], modelled in [`index_model`]) has two halves. Committed
//! keys are written only from committed content, so replicas at the same
//! commit hold the same committed keys, and only a committed key inside the
//! window ever drops a message. Pending keys are those of appended but
//! uncommitted batches; a request that matches one is deferred as a whole.
//!
//! What follows from the operations is proved in [`laws`], of the index, and
//! in [`partition_laws`], of whole runs: no key is in a partition's log twice
//! within the window, and no message is lost. [`index_laws`], [`batch_laws`]
//! and [`header_laws`] say in plain integers and bytes what a lookup, a
//! recording, an eviction, a verdict and a key come to.
//!
//! # Around it
//!
//! [`dispatch`] answers the reads of a server from its committed metadata, the
//! topic options of deduplication among them. [`campaign`] and [`audit`] drive
//! fuzz runs against a replicated group and judge what they leave behind. What
//! their answers mean is proved in [`response_laws`], [`stats_laws`],
//! [`catalog_laws`], [`decimal_laws`], [`campaign_laws`] and [`audit_laws`].

pub mod accounts;
pub mod audit;
pub mod audit_laws;
pub mod batch;
pub mod batch_laws;
pub mod campaign;
pub mod campaign_laws;
pub mod catalog_laws;
pub mod decimal;
pub mod decimal_laws;
pub mod dispatch;
pub mod error;
pub mod hash;
pub mod header_laws;
pub mod index;
pub mod index_laws;
pub mod index_model;
pub mod key;
pub mod laws;
pub mod metadata;
pub mod options_catalog;
pub mod partition_laws;
pub mod policy;
pub mod response_laws;
pub mod responses;
pub mod stats;
pub mod stats_laws;
pub mod user_headers;
pub mod wire;
