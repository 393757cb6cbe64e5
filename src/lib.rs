//! The core of a publish/subscribe and query overlay, with its contracts
//! proved by Verus:
//!
//! - replica digests: a time-bucketed, checksummed summary of a replica's
//!   log, built, updated, compressed and compared for alignment;
//! - the declaration-propagation engine: which faces hear of the
//!   subscriptions and queryables declared in the router, peer and client
//!   scopes, as nodes, links and spanning trees come and go.

/// Lexicographic order on byte strings.
pub mod order;
/// Decimal and hexadecimal renderings.
pub mod text;
/// Calls into the CRC, clock and string libraries.
pub mod trusted;
/// Timestamps and log entries.
pub mod entry;
/// Increasing vectors used as ordered sets.
pub mod sorted;
/// The digest data model and its consistency.
pub mod digest;
/// Building and updating digests.
pub mod update;
/// Testing digests for consistency.
pub mod consistency;
/// Compression and alignment queries.
pub mod align;
/// Laws of digests.
pub mod laws;
/// The routing tables.
pub mod tables;
/// Subscription declarations.
pub mod pubsub;
/// Queryable declarations.
pub mod queries;
/// Key-expression tree traversal.
pub mod tree;
