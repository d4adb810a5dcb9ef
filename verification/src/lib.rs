//! Incremental, resumable download of Discord channel history.
//!
//! The crate keeps the bookkeeping of a download: which spans of a channel's
//! message identifiers have already been retrieved, where the next request has
//! to start, and how a page of messages is folded into what is stored. The
//! network and the database stay with the caller.

pub mod api;
pub mod convergence;
pub mod directory;
pub mod downloader;
pub mod input;
pub mod messages;
pub mod migration;
pub mod ranges;
pub mod snowflake;
