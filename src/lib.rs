//! Core of a DNS sinkhole forwarder: a reversed-domain trie of blocked names with
//! per-list provenance and allow overlays, the parser for hosts-style list files,
//! the engine that rebuilds and publishes snapshots, and the decisions of the
//! fetcher, the query dispatcher and the admin statistics.

pub mod trie;
pub mod parser;
pub mod blocklist;
pub mod fetch;
pub mod dispatch;
pub mod config;
