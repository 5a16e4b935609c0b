//! Bookkeeping core of a BitTorrent tracker: a registry of torrent metadata,
//! a registry of announced peers, and JSON snapshots of both.

pub mod db;
pub mod index;
pub mod json;
pub mod models;
pub mod text;
pub mod tracker;
