//! The entities that the registries store, and their mathematical views.

use vstd::prelude::*;

verus! {

/// Metadata of one torrent. `info_hash` is its identity; `added_at` is an
/// ISO-8601 timestamp that the registries never interpret.
#[derive(Debug, Clone, PartialEq, Eq)]
pub struct Torrent {
    pub name: String,
    pub info_hash: String,
    pub file_size: u64,
    pub added_at: String,
}

/// What a peer is doing in a swarm.
#[derive(Debug, Clone, PartialEq, Eq)]
pub enum PeerStatus {
    Seeding,
    Leeching,
}

/// One participant of a swarm. `info_hash` names the torrent by value only:
/// nothing requires that a torrent with that hash is registered anywhere.
#[derive(Debug, Clone, PartialEq, Eq)]
pub struct Peer {
    pub peer_id: String,
    pub info_hash: String,
    pub status: PeerStatus,
}

/// A torrent as a mathematical value.
pub struct TorrentView {
    pub name: Seq<char>,
    pub info_hash: Seq<char>,
    pub file_size: u64,
    pub added_at: Seq<char>,
}

/// A peer as a mathematical value.
pub struct PeerView {
    pub peer_id: Seq<char>,
    pub info_hash: Seq<char>,
    pub status: PeerStatus,
}

impl View for Torrent {
    type V = TorrentView;

    open spec fn view(&self) -> TorrentView {
        TorrentView {
            name: self.name@,
            info_hash: self.info_hash@,
            file_size: self.file_size,
            added_at: self.added_at@,
        }
    }
}

impl View for Peer {
    type V = PeerView;

    open spec fn view(&self) -> PeerView {
        PeerView { peer_id: self.peer_id@, info_hash: self.info_hash@, status: self.status }
    }
}

} // verus!
