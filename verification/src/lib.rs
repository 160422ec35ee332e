//! Core of a relay bot that forwards favorited images to chat destinations.
//!
//! The library holds the verified logic: the tag-filter predicate, the
//! image deduplicator, the subscription store, command handling, dispatch
//! planning, and the snapshot codecs. All I/O (HTTP polling, file writes,
//! threads) lives outside, in a thin shell that feeds this library plain
//! values and carries its results to the network and the disk.

pub mod bot;
pub mod codec;
pub mod communicator;
pub mod derpiquery;
pub mod filter;
pub mod images;
pub mod queue;
pub mod store;
pub mod strutil;
