//! Snapshots of the registries as JSON: an array of torrent objects for the
//! torrent registry, an array of peer objects for the peer registry.
//!
//! A snapshot is loaded by adding or announcing its entries one by one, in
//! the order of the array, to an empty registry. So what the registries
//! refuse, a load refuses too: of two torrents with one hash, or two peers
//! with one hash and identifier, the first is kept.

use vstd::prelude::*;
use crate::index::{distinct_hashes, lemma_distinct_hashes_all_kept, with_all_added, Index};
use crate::json::{
    array_value, distinct_keys, document, documents, is_object_of, items, member, natural,
    natural_value, object_value, parse, parsed_document, render, rendered_text, text, text_value,
    JsonDoc,
};
use crate::models::{Peer, PeerStatus, PeerView, Torrent, TorrentView};
use crate::tracker::{
    all_peers, lemma_announcing_all_peers_restores, well_grouped, with_all_announced, SwarmView,
    Tracker,
};

verus! {

/// Why a snapshot could not be written or read.
#[derive(Debug, Clone, Copy, PartialEq, Eq)]
pub enum DbError {
    /// The document could not be printed as text.
    Encode,
    /// The text is no JSON, or not an array of entries of the expected shape.
    Malformed,
}

/// The word that stands for a status in a snapshot.
pub open spec fn status_word(status: PeerStatus) -> Seq<char> {
    match status {
        PeerStatus::Seeding => "Seeding"@,
        PeerStatus::Leeching => "Leeching"@,
    }
}

/// The status that a word stands for; no other word stands for one.
pub open spec fn status_of_word(word: Seq<char>) -> Option<PeerStatus> {
    if word == "Seeding"@ {
        Some(PeerStatus::Seeding)
    } else if word == "Leeching"@ {
        Some(PeerStatus::Leeching)
    } else {
        None
    }
}

/// The content of the string under `key` in the object `doc`; `None` where
/// `doc` is no object, has no such key, or holds something else under it.
pub open spec fn text_member(doc: JsonDoc, key: Seq<char>) -> Option<Seq<char>> {
    match doc {
        JsonDoc::Object(fields) => if fields.contains_key(key) {
            match fields[key] {
                JsonDoc::Text(content) => Some(content),
                _ => None,
            }
        } else {
            None
        },
        _ => None,
    }
}

/// The unsigned number under `key` in the object `doc`; `None` where `doc`
/// is no object, has no such key, or holds something else under it.
pub open spec fn natural_member(doc: JsonDoc, key: Seq<char>) -> Option<u64> {
    match doc {
        JsonDoc::Object(fields) => if fields.contains_key(key) {
            match fields[key] {
                JsonDoc::Natural(n) => Some(n),
                _ => None,
            }
        } else {
            None
        },
        _ => None,
    }
}

/// The object that stands for a torrent.
pub open spec fn torrent_document(t: TorrentView) -> JsonDoc {
    JsonDoc::Object(
        Map::<Seq<char>, JsonDoc>::empty().insert("name"@, JsonDoc::Text(t.name)).insert(
            "info_hash"@,
            JsonDoc::Text(t.info_hash),
        ).insert("file_size"@, JsonDoc::Natural(t.file_size)).insert(
            "added_at"@,
            JsonDoc::Text(t.added_at),
        ),
    )
}

/// The torrent that a document stands for: an object with strings under
/// `name`, `info_hash` and `added_at` and an unsigned number under
/// `file_size`. What else the object holds is not looked at.
pub open spec fn torrent_of_document(doc: JsonDoc) -> Option<TorrentView> {
    match (
        text_member(doc, "name"@),
        text_member(doc, "info_hash"@),
        natural_member(doc, "file_size"@),
        text_member(doc, "added_at"@),
    ) {
        (Some(name), Some(info_hash), Some(file_size), Some(added_at)) => Some(
            TorrentView { name, info_hash, file_size, added_at },
        ),
        _ => None,
    }
}

/// The object that stands for a peer.
pub open spec fn peer_document(p: PeerView) -> JsonDoc {
    JsonDoc::Object(
        Map::<Seq<char>, JsonDoc>::empty().insert("peer_id"@, JsonDoc::Text(p.peer_id)).insert(
            "info_hash"@,
            JsonDoc::Text(p.info_hash),
        ).insert("status"@, JsonDoc::Text(status_word(p.status))),
    )
}

/// The peer that a document stands for: an object with strings under
/// `peer_id`, `info_hash` and `status`, the last one the word of a status.
/// What else the object holds is not looked at.
pub open spec fn peer_of_document(doc: JsonDoc) -> Option<PeerView> {
    match (text_member(doc, "peer_id"@), text_member(doc, "info_hash"@), text_member(doc, "status"@)) {
        (Some(peer_id), Some(info_hash), Some(word)) => match status_of_word(word) {
            Some(status) => Some(PeerView { peer_id, info_hash, status }),
            None => None,
        },
        _ => None,
    }
}

/// The array that stands for torrents, in their order.
pub open spec fn torrents_document(ts: Seq<TorrentView>) -> JsonDoc {
    JsonDoc::Array(ts.map_values(|t: TorrentView| torrent_document(t)))
}

/// The torrents that a document stands for: an array whose every element
/// stands for a torrent. One element that does not spoils the whole.
pub open spec fn torrents_of_document(doc: JsonDoc) -> Option<Seq<TorrentView>> {
    match doc {
        JsonDoc::Array(elements) => if forall|i: int|
            0 <= i < elements.len() ==> torrent_of_document(#[trigger] elements[i]) is Some {
            Some(elements.map_values(|d: JsonDoc| torrent_of_document(d).unwrap()))
        } else {
            None
        },
        _ => None,
    }
}

/// The array that stands for peers, in their order.
pub open spec fn peers_document(ps: Seq<PeerView>) -> JsonDoc {
    JsonDoc::Array(ps.map_values(|p: PeerView| peer_document(p)))
}

/// The peers that a document stands for: an array whose every element stands
/// for a peer. One element that does not spoils the whole.
pub open spec fn peers_of_document(doc: JsonDoc) -> Option<Seq<PeerView>> {
    match doc {
        JsonDoc::Array(elements) => if forall|i: int|
            0 <= i < elements.len() ==> peer_of_document(#[trigger] elements[i]) is Some {
            Some(elements.map_values(|d: JsonDoc| peer_of_document(d).unwrap()))
        } else {
            None
        },
        _ => None,
    }
}

/// The torrent registry that a document loads as: its torrents, added one
/// by one to an empty registry.
pub open spec fn index_of_document(doc: JsonDoc) -> Option<Seq<TorrentView>> {
    match torrents_of_document(doc) {
        Some(ts) => Some(with_all_added(Seq::empty(), ts)),
        None => None,
    }
}

/// The peer registry that a document loads as: its peers, announced one by
/// one to an empty registry.
pub open spec fn tracker_of_document(doc: JsonDoc) -> Option<Seq<SwarmView>> {
    match peers_of_document(doc) {
        Some(ps) => Some(with_all_announced(Seq::empty(), ps)),
        None => None,
    }
}

/// The keys of the two kinds of object differ from one another, and so do
/// the two status words.
proof fn lemma_words_differ()
    ensures
        "name"@ != "info_hash"@,
        "name"@ != "file_size"@,
        "name"@ != "added_at"@,
        "info_hash"@ != "file_size"@,
        "info_hash"@ != "added_at"@,
        "file_size"@ != "added_at"@,
        "peer_id"@ != "info_hash"@,
        "peer_id"@ != "status"@,
        "info_hash"@ != "status"@,
        "Seeding"@ != "Leeching"@,
{
    reveal_strlit("name");
    reveal_strlit("info_hash");
    reveal_strlit("file_size");
    reveal_strlit("added_at");
    reveal_strlit("peer_id");
    reveal_strlit("status");
    reveal_strlit("Seeding");
    reveal_strlit("Leeching");
    assert("name"@.len() == 4 && "info_hash"@.len() == 9 && "file_size"@.len() == 9);
    assert("added_at"@.len() == 8 && "peer_id"@.len() == 7 && "status"@.len() == 6);
    assert("Seeding"@.len() == 7 && "Leeching"@.len() == 8);
    assert("info_hash"@[0] != "file_size"@[0]);
}

/// The object of a torrent stands for that torrent.
pub proof fn lemma_torrent_document_reads_back(t: TorrentView)
    ensures
        torrent_of_document(torrent_document(t)) == Some(t),
{
    lemma_words_differ();
}

/// The object of a peer stands for that peer.
pub proof fn lemma_peer_document_reads_back(p: PeerView)
    ensures
        peer_of_document(peer_document(p)) == Some(p),
{
    lemma_words_differ();
}

/// The array of some torrents stands for those torrents.
pub proof fn lemma_torrents_document_reads_back(ts: Seq<TorrentView>)
    ensures
        torrents_of_document(torrents_document(ts)) == Some(ts),
{
    let elements = ts.map_values(|t: TorrentView| torrent_document(t));
    assert forall|i: int| 0 <= i < elements.len() implies torrent_of_document(
        #[trigger] elements[i],
    ) == Some(ts[i]) by {
        lemma_torrent_document_reads_back(ts[i]);
    }
    assert(elements.map_values(|d: JsonDoc| torrent_of_document(d).unwrap()) =~= ts);
}

/// The array of some peers stands for those peers.
pub proof fn lemma_peers_document_reads_back(ps: Seq<PeerView>)
    ensures
        peers_of_document(peers_document(ps)) == Some(ps),
{
    let elements = ps.map_values(|p: PeerView| peer_document(p));
    assert forall|i: int| 0 <= i < elements.len() implies peer_of_document(#[trigger] elements[i])
        == Some(ps[i]) by {
        lemma_peer_document_reads_back(ps[i]);
    }
    assert(elements.map_values(|d: JsonDoc| peer_of_document(d).unwrap()) =~= ps);
}

/// The snapshot document of a torrent registry loads as that registry: the
/// same torrents, with the same fields, in the same order.
pub proof fn lemma_index_document_restores(s: Seq<TorrentView>)
    requires
        distinct_hashes(s),
    ensures
        index_of_document(torrents_document(s)) == Some(s),
{
    lemma_torrents_document_reads_back(s);
    lemma_distinct_hashes_all_kept(s);
}

/// The snapshot document of a peer registry loads as that registry: every
/// hash has the same peers, with the same status, in the same order.
pub proof fn lemma_tracker_document_restores(s: Seq<SwarmView>)
    requires
        well_grouped(s),
    ensures
        tracker_of_document(peers_document(all_peers(s))) == Some(s),
{
    lemma_peers_document_reads_back(all_peers(s));
    lemma_announcing_all_peers_restores(s);
}

/// What a load of a torrent registry returns, given the registry that the
/// document stands for: that registry, or `Malformed` where it stands for
/// none.
pub open spec fn is_loaded_index(r: Result<Index, DbError>, state: Option<Seq<TorrentView>>) -> bool {
    match state {
        Some(s) => r matches Ok(index) && index@ == s,
        None => r matches Err(e) && e == DbError::Malformed,
    }
}

/// What a load of a peer registry returns, given the registry that the
/// document stands for: that registry, or `Malformed` where it stands for
/// none.
pub open spec fn is_loaded_tracker(r: Result<Tracker, DbError>, state: Option<Seq<SwarmView>>) -> bool {
    match state {
        Some(s) => r matches Ok(tracker) && tracker@ == s,
        None => r matches Err(e) && e == DbError::Malformed,
    }
}

/// What printing a document returns: its text, or `Encode` where it has none.
pub open spec fn is_saved(r: Result<String, DbError>, doc: JsonDoc) -> bool {
    match rendered_text(doc) {
        Some(printed) => r matches Ok(s) && s@ == printed,
        None => r matches Err(e) && e == DbError::Encode,
    }
}

/// The content of the string under `key` in the object `v`.
fn text_field(v: &serde_json::Value, key: &str) -> (r: Option<String>)
    ensures
        match r {
            Some(content) => text_member(document(*v), key@) == Some(content@),
            None => text_member(document(*v), key@) is None,
        },
{
    match member(v, key) {
        Some(found) => match text(found) {
            Some(content) => Some(content.to_owned()),
            None => None,
        },
        None => None,
    }
}

/// The unsigned number under `key` in the object `v`.
fn natural_field(v: &serde_json::Value, key: &str) -> (r: Option<u64>)
    ensures
        r == natural_member(document(*v), key@),
{
    match member(v, key) {
        Some(found) => natural(found),
        None => None,
    }
}

/// The word that stands for `status`.
fn word_of_status(status: &PeerStatus) -> (word: &'static str)
    ensures
        word@ == status_word(*status),
{
    match status {
        PeerStatus::Seeding => "Seeding",
        PeerStatus::Leeching => "Leeching",
    }
}

/// The status that `word` stands for.
fn status_from_word(word: &String) -> (r: Option<PeerStatus>)
    ensures
        r == status_of_word(word@),
{
    // Compared as owned strings, whose equality is the equality of their text.
    if *word == "Seeding".to_owned() {
        Some(PeerStatus::Seeding)
    } else if *word == "Leeching".to_owned() {
        Some(PeerStatus::Leeching)
    } else {
        None
    }
}

/// The object that stands for `t`.
fn torrent_value(t: &Torrent) -> (v: serde_json::Value)
    ensures
        document(v) == torrent_document(t@),
{
    let mut fields: Vec<(String, serde_json::Value)> = Vec::new();
    fields.push(("name".to_owned(), text_value(t.name.as_str())));
    fields.push(("info_hash".to_owned(), text_value(t.info_hash.as_str())));
    fields.push(("file_size".to_owned(), natural_value(t.file_size)));
    fields.push(("added_at".to_owned(), text_value(t.added_at.as_str())));
    proof {
        lemma_words_differ();
    }
    let v = object_value(fields);
    proof {
        let m = document(v)->Object_0;
        let expected = torrent_document(t@)->Object_0;
        assert(fields@[0].0@ == "name"@ && fields@[1].0@ == "info_hash"@);
        assert(fields@[2].0@ == "file_size"@ && fields@[3].0@ == "added_at"@);
        assert(m =~= expected);
    }
    v
}

/// The torrent that `v` stands for, if it stands for one.
fn torrent_from_value(v: &serde_json::Value) -> (r: Option<Torrent>)
    ensures
        match r {
            Some(t) => torrent_of_document(document(*v)) == Some(t@),
            None => torrent_of_document(document(*v)) is None,
        },
{
    let name = match text_field(v, "name") {
        Some(name) => name,
        None => { return None; },
    };
    let info_hash = match text_field(v, "info_hash") {
        Some(info_hash) => info_hash,
        None => { return None; },
    };
    let file_size = match natural_field(v, "file_size") {
        Some(file_size) => file_size,
        None => { return None; },
    };
    let added_at = match text_field(v, "added_at") {
        Some(added_at) => added_at,
        None => { return None; },
    };
    Some(Torrent { name, info_hash, file_size, added_at })
}

/// The object that stands for `p`.
fn peer_value(p: &Peer) -> (v: serde_json::Value)
    ensures
        document(v) == peer_document(p@),
{
    let mut fields: Vec<(String, serde_json::Value)> = Vec::new();
    fields.push(("peer_id".to_owned(), text_value(p.peer_id.as_str())));
    fields.push(("info_hash".to_owned(), text_value(p.info_hash.as_str())));
    fields.push(("status".to_owned(), text_value(word_of_status(&p.status))));
    proof {
        lemma_words_differ();
    }
    let v = object_value(fields);
    proof {
        let m = document(v)->Object_0;
        let expected = peer_document(p@)->Object_0;
        assert(fields@[0].0@ == "peer_id"@ && fields@[1].0@ == "info_hash"@);
        assert(fields@[2].0@ == "status"@);
        assert(m =~= expected);
    }
    v
}

/// The peer that `v` stands for, if it stands for one.
fn peer_from_value(v: &serde_json::Value) -> (r: Option<Peer>)
    ensures
        match r {
            Some(p) => peer_of_document(document(*v)) == Some(p@),
            None => peer_of_document(document(*v)) is None,
        },
{
    let peer_id = match text_field(v, "peer_id") {
        Some(peer_id) => peer_id,
        None => { return None; },
    };
    let info_hash = match text_field(v, "info_hash") {
        Some(info_hash) => info_hash,
        None => { return None; },
    };
    let word = match text_field(v, "status") {
        Some(word) => word,
        None => { return None; },
    };
    match status_from_word(&word) {
        Some(status) => Some(Peer { peer_id, info_hash, status }),
        None => None,
    }
}

/// The snapshot of a torrent registry as a JSON value: the array of its
/// torrents, each an object of its four fields. Loaded again, the snapshot
/// gives the registry back.
pub fn index_document(index: &Index) -> (v: serde_json::Value)
    ensures
        document(v) == torrents_document(index@),
        index_of_document(document(v)) == Some(index@),
{
    let listed = index.list_torrents();
    let mut elements: Vec<serde_json::Value> = Vec::new();
    let mut i: usize = 0;
    while i < listed.len()
        invariant
            i <= listed.len(),
            elements@.len() == i,
            forall|k: int| 0 <= k < i ==> document(#[trigger] elements@[k]) == torrent_document(listed@[k]@),
        decreases listed.len() - i,
    {
        elements.push(torrent_value(listed[i]));
        i += 1;
    }
    let v = array_value(elements);
    proof {
        assert forall|k: int| 0 <= k < index@.len() implies listed@[k]@ == index@[k] by {
            assert(crate::index::borrowed_views(listed@)[k] == index@[k]);
        }
        assert(documents(elements@) =~= index@.map_values(|t: TorrentView| torrent_document(t)));
        lemma_index_document_restores(index@);
    }
    v
}

/// The torrent registry that a JSON value stands for: its torrents, added
/// in the order of the array to an empty registry. `Malformed` where the
/// value is no array or one of its elements stands for no torrent.
pub fn index_from_document(v: &serde_json::Value) -> (r: Result<Index, DbError>)
    ensures
        is_loaded_index(r, index_of_document(document(*v))),
{
    let elements = match items(v) {
        Some(elements) => elements,
        None => { return Err(DbError::Malformed); },
    };
    let ghost docs = documents(elements@);
    let mut index = Index::new();
    let mut i: usize = 0;
    assert(docs.take(0) =~= Seq::<JsonDoc>::empty());
    assert(torrents_of_document(JsonDoc::Array(docs.take(0))) == Some(Seq::<TorrentView>::empty())) by {
        assert(docs.take(0).map_values(|d: JsonDoc| torrent_of_document(d).unwrap())
            =~= Seq::<TorrentView>::empty());
    }
    while i < elements.len()
        invariant
            i <= elements.len(),
            docs == documents(elements@),
            document(*v) == JsonDoc::Array(docs),
            is_loaded_index(Ok(index), index_of_document(JsonDoc::Array(docs.take(i as int)))),
        decreases elements.len() - i,
    {
        proof {
            lemma_one_more_torrent(docs, i as int);
        }
        match torrent_from_value(&elements[i]) {
            Some(t) => {
                let ghost read = torrents_of_document(JsonDoc::Array(docs.take(i as int))).unwrap();
                index.add_torrent(t);
                assert(read.push(t@).drop_last() =~= read);
            },
            None => {
                assert(torrent_of_document(docs[i as int]) is None);
                return Err(DbError::Malformed);
            },
        }
        i += 1;
    }
    assert(docs.take(i as int) =~= docs);
    Ok(index)
}

/// The snapshot of a peer registry as a JSON value: the array of all its
/// peers, swarm after swarm, each an object of its three fields. Loaded
/// again, the snapshot gives the registry back.
pub fn tracker_document(tracker: &Tracker) -> (v: serde_json::Value)
    ensures
        document(v) == peers_document(all_peers(tracker@)),
        tracker_of_document(document(v)) == Some(tracker@),
{
    let listed = tracker.all_peers();
    let mut elements: Vec<serde_json::Value> = Vec::new();
    let mut i: usize = 0;
    while i < listed.len()
        invariant
            i <= listed.len(),
            elements@.len() == i,
            forall|k: int| 0 <= k < i ==> document(#[trigger] elements@[k]) == peer_document(listed@[k]@),
        decreases listed.len() - i,
    {
        elements.push(peer_value(listed[i]));
        i += 1;
    }
    let v = array_value(elements);
    proof {
        let flat = all_peers(tracker@);
        assert forall|k: int| 0 <= k < flat.len() implies listed@[k]@ == flat[k] by {
            assert(crate::tracker::borrowed_peer_views(listed@)[k] == flat[k]);
        }
        assert(documents(elements@) =~= flat.map_values(|p: PeerView| peer_document(p)));
        lemma_tracker_document_restores(tracker@);
    }
    v
}

/// The peer registry that a JSON value stands for: its peers, announced in
/// the order of the array to an empty registry. `Malformed` where the value
/// is no array or one of its elements stands for no peer.
pub fn tracker_from_document(v: &serde_json::Value) -> (r: Result<Tracker, DbError>)
    ensures
        is_loaded_tracker(r, tracker_of_document(document(*v))),
{
    let elements = match items(v) {
        Some(elements) => elements,
        None => { return Err(DbError::Malformed); },
    };
    let ghost docs = documents(elements@);
    let mut tracker = Tracker::new();
    let mut i: usize = 0;
    assert(docs.take(0) =~= Seq::<JsonDoc>::empty());
    assert(peers_of_document(JsonDoc::Array(docs.take(0))) == Some(Seq::<PeerView>::empty())) by {
        assert(docs.take(0).map_values(|d: JsonDoc| peer_of_document(d).unwrap())
            =~= Seq::<PeerView>::empty());
    }
    while i < elements.len()
        invariant
            i <= elements.len(),
            docs == documents(elements@),
            document(*v) == JsonDoc::Array(docs),
            is_loaded_tracker(Ok(tracker), tracker_of_document(JsonDoc::Array(docs.take(i as int)))),
        decreases elements.len() - i,
    {
        proof {
            lemma_one_more_peer(docs, i as int);
        }
        match peer_from_value(&elements[i]) {
            Some(p) => {
                let ghost read = peers_of_document(JsonDoc::Array(docs.take(i as int))).unwrap();
                tracker.announce_peer(p);
                assert(read.push(p@).drop_last() =~= read);
            },
            None => {
                assert(peer_of_document(docs[i as int]) is None);
                return Err(DbError::Malformed);
            },
        }
        i += 1;
    }
    assert(docs.take(i as int) =~= docs);
    Ok(tracker)
}

/// The snapshot of a torrent registry as JSON text. `Encode` where the
/// snapshot has no text.
pub fn save_index(index: &Index) -> (r: Result<String, DbError>)
    ensures
        is_saved(r, torrents_document(index@)),
{
    let v = index_document(index);
    match render(&v) {
        Ok(printed) => Ok(printed),
        Err(_) => Err(DbError::Encode),
    }
}

/// The torrent registry that a JSON text stands for. `Malformed` where the
/// text is no JSON or the document stands for no registry.
pub fn load_index(text: &str) -> (r: Result<Index, DbError>)
    ensures
        is_loaded_index(
            r,
            match parsed_document(text@) {
                Some(doc) => index_of_document(doc),
                None => None,
            },
        ),
{
    match parse(text) {
        Ok(v) => index_from_document(&v),
        Err(_) => Err(DbError::Malformed),
    }
}

/// The snapshot of a peer registry as JSON text. `Encode` where the snapshot
/// has no text.
pub fn save_tracker(tracker: &Tracker) -> (r: Result<String, DbError>)
    ensures
        is_saved(r, peers_document(all_peers(tracker@))),
{
    let v = tracker_document(tracker);
    match render(&v) {
        Ok(printed) => Ok(printed),
        Err(_) => Err(DbError::Encode),
    }
}

/// The peer registry that a JSON text stands for. `Malformed` where the
/// text is no JSON or the document stands for no registry.
pub fn load_tracker(text: &str) -> (r: Result<Tracker, DbError>)
    ensures
        is_loaded_tracker(
            r,
            match parsed_document(text@) {
                Some(doc) => tracker_of_document(doc),
                None => None,
            },
        ),
{
    match parse(text) {
        Ok(v) => tracker_from_document(&v),
        Err(_) => Err(DbError::Malformed),
    }
}

/// The torrents of the first `i + 1` elements of an array are those of the
/// first `i` and that of the next; where either is missing, so is the whole.
proof fn lemma_one_more_torrent(docs: Seq<JsonDoc>, i: int)
    requires
        0 <= i < docs.len(),
    ensures
        torrents_of_document(JsonDoc::Array(docs.take(i + 1))) == match (
            torrents_of_document(JsonDoc::Array(docs.take(i))),
            torrent_of_document(docs[i]),
        ) {
            (Some(ts), Some(t)) => Some(ts.push(t)),
            _ => None,
        },
        torrent_of_document(docs[i]) is None ==> torrents_of_document(JsonDoc::Array(docs)) is None,
        torrents_of_document(JsonDoc::Array(docs.take(i))) is None ==> torrents_of_document(
            JsonDoc::Array(docs),
        ) is None,
{
    let shorter = docs.take(i);
    let longer = docs.take(i + 1);
    assert(longer[i] == docs[i]);
    if torrents_of_document(JsonDoc::Array(shorter)) is Some && torrent_of_document(docs[i]) is Some {
        assert forall|k: int| 0 <= k < longer.len() implies torrent_of_document(#[trigger] longer[k]) is Some by {
            if k < i {
                assert(shorter[k] == longer[k]);
            }
        }
        assert(longer.map_values(|d: JsonDoc| torrent_of_document(d).unwrap()) =~= shorter.map_values(
            |d: JsonDoc| torrent_of_document(d).unwrap(),
        ).push(torrent_of_document(docs[i]).unwrap()));
    } else if torrent_of_document(docs[i]) is None {
    } else {
        let k = choose|k: int| 0 <= k < shorter.len() && !(torrent_of_document(#[trigger] shorter[k]) is Some);
        assert(longer[k] == shorter[k]);
        assert(docs[k] == shorter[k]);
    }
}

/// The peers of the first `i + 1` elements of an array are those of the
/// first `i` and that of the next; where either is missing, so is the whole.
proof fn lemma_one_more_peer(docs: Seq<JsonDoc>, i: int)
    requires
        0 <= i < docs.len(),
    ensures
        peers_of_document(JsonDoc::Array(docs.take(i + 1))) == match (
            peers_of_document(JsonDoc::Array(docs.take(i))),
            peer_of_document(docs[i]),
        ) {
            (Some(ps), Some(p)) => Some(ps.push(p)),
            _ => None,
        },
        peer_of_document(docs[i]) is None ==> peers_of_document(JsonDoc::Array(docs)) is None,
        peers_of_document(JsonDoc::Array(docs.take(i))) is None ==> peers_of_document(
            JsonDoc::Array(docs),
        ) is None,
{
    let shorter = docs.take(i);
    let longer = docs.take(i + 1);
    assert(longer[i] == docs[i]);
    if peers_of_document(JsonDoc::Array(shorter)) is Some && peer_of_document(docs[i]) is Some {
        assert forall|k: int| 0 <= k < longer.len() implies peer_of_document(#[trigger] longer[k]) is Some by {
            if k < i {
                assert(shorter[k] == longer[k]);
            }
        }
        assert(longer.map_values(|d: JsonDoc| peer_of_document(d).unwrap()) =~= shorter.map_values(
            |d: JsonDoc| peer_of_document(d).unwrap(),
        ).push(peer_of_document(docs[i]).unwrap()));
    } else if peer_of_document(docs[i]) is None {
    } else {
        let k = choose|k: int| 0 <= k < shorter.len() && !(peer_of_document(#[trigger] shorter[k]) is Some);
        assert(longer[k] == shorter[k]);
        assert(docs[k] == shorter[k]);
    }
}

} // verus!
