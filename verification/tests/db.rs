use serde_json::Value;
use torrent_tracker::db::{
    index_document, index_from_document, load_index, load_tracker, save_index, save_tracker,
    tracker_document, tracker_from_document, DbError,
};
use torrent_tracker::index::Index;
use torrent_tracker::models::{Peer, PeerStatus, Torrent};
use torrent_tracker::tracker::Tracker;

fn cowboy_movie() -> Torrent {
    Torrent {
        name: "Cowboy Movie".to_string(),
        info_hash: "hashcowboy".to_string(),
        file_size: 123,
        added_at: "2025-10-30T12:00:00Z".to_string(),
    }
}

fn cowpoke() -> Peer {
    Peer {
        peer_id: "cowpoke".to_string(),
        info_hash: "hashcowboy".to_string(),
        status: PeerStatus::Seeding,
    }
}

fn object(fields: &[(&str, Value)]) -> Value {
    let mut map = serde_json::Map::new();
    for (key, value) in fields {
        map.insert(key.to_string(), value.clone());
    }
    Value::Object(map)
}

fn torrent_object(name: &str, info_hash: &str, file_size: u64, added_at: &str) -> Value {
    object(&[
        ("name", Value::from(name)),
        ("info_hash", Value::from(info_hash)),
        ("file_size", Value::from(file_size)),
        ("added_at", Value::from(added_at)),
    ])
}

fn peer_object(peer_id: &str, info_hash: &str, status: &str) -> Value {
    object(&[
        ("peer_id", Value::from(peer_id)),
        ("info_hash", Value::from(info_hash)),
        ("status", Value::from(status)),
    ])
}

fn index_is_malformed(doc: &Value) -> bool {
    matches!(index_from_document(doc), Err(DbError::Malformed))
}

fn tracker_is_malformed(doc: &Value) -> bool {
    matches!(tracker_from_document(doc), Err(DbError::Malformed))
}

#[test]
fn test_save_and_load_index() {
    let mut index = Index::new();
    let torrent = Torrent {
        name: "Cowboy Movie".to_string(),
        info_hash: "hashcowboy".to_string(),
        file_size: 123,
        added_at: "2025-10-30T12:00:00Z".to_string(),
    };
    index.add_torrent(torrent);
    let saved = save_index(&index).unwrap();
    let loaded = load_index(&saved).unwrap();
    assert_eq!(loaded.list_torrents().len(), 1);
}

#[test]
fn test_save_and_load_tracker() {
    let mut tracker = Tracker::new();
    let peer = Peer {
        peer_id: "cowpoke".to_string(),
        info_hash: "hashcowboy".to_string(),
        status: PeerStatus::Seeding,
    };
    tracker.announce_peer(peer);
    let saved = save_tracker(&tracker).unwrap();
    let loaded = load_tracker(&saved).unwrap();
    assert_eq!(loaded.list_peers("hashcowboy").len(), 1);
}

#[test]
fn saved_torrent_comes_back_with_identical_fields() {
    let mut index = Index::new();
    index.add_torrent(cowboy_movie());
    let loaded = load_index(&save_index(&index).unwrap()).unwrap();
    let list = loaded.list_torrents();
    assert_eq!(list.len(), 1);
    assert_eq!(list[0].name, "Cowboy Movie");
    assert_eq!(list[0].info_hash, "hashcowboy");
    assert_eq!(list[0].file_size, 123);
    assert_eq!(list[0].added_at, "2025-10-30T12:00:00Z");
    assert_eq!(*list[0], cowboy_movie());
}

#[test]
fn saved_peer_comes_back_under_its_hash() {
    let mut tracker = Tracker::new();
    tracker.announce_peer(cowpoke());
    let loaded = load_tracker(&save_tracker(&tracker).unwrap()).unwrap();
    let peers = loaded.list_peers("hashcowboy");
    assert_eq!(peers.len(), 1);
    assert_eq!(peers[0].peer_id, "cowpoke");
    assert_eq!(peers[0].status, PeerStatus::Seeding);
    assert_eq!(*peers[0], cowpoke());
}

#[test]
fn save_index_prints_an_array_of_objects() {
    let mut index = Index::new();
    index.add_torrent(cowboy_movie());
    assert_eq!(
        save_index(&index).unwrap(),
        "[{\"added_at\":\"2025-10-30T12:00:00Z\",\"file_size\":123,\"info_hash\":\"hashcowboy\",\"name\":\"Cowboy Movie\"}]"
    );
    assert_eq!(save_index(&Index::new()).unwrap(), "[]");
}

#[test]
fn save_tracker_prints_an_array_of_objects() {
    let mut tracker = Tracker::new();
    tracker.announce_peer(cowpoke());
    tracker.announce_peer(Peer {
        peer_id: "drifter".to_string(),
        info_hash: "hashcowboy".to_string(),
        status: PeerStatus::Leeching,
    });
    assert_eq!(
        save_tracker(&tracker).unwrap(),
        "[{\"info_hash\":\"hashcowboy\",\"peer_id\":\"cowpoke\",\"status\":\"Seeding\"},{\"info_hash\":\"hashcowboy\",\"peer_id\":\"drifter\",\"status\":\"Leeching\"}]"
    );
    assert_eq!(save_tracker(&Tracker::new()).unwrap(), "[]");
}

#[test]
fn index_document_holds_each_field_under_its_name() {
    let mut index = Index::new();
    index.add_torrent(cowboy_movie());
    index.add_torrent(Torrent {
        name: "Big".to_string(),
        info_hash: "hashbig".to_string(),
        file_size: u64::MAX,
        added_at: "".to_string(),
    });
    let doc = index_document(&index);
    let elements = doc.as_array().unwrap();
    assert_eq!(elements.len(), 2);
    let first = elements[0].as_object().unwrap();
    assert_eq!(first.len(), 4);
    assert_eq!(first.get("name").unwrap().as_str(), Some("Cowboy Movie"));
    assert_eq!(first.get("info_hash").unwrap().as_str(), Some("hashcowboy"));
    assert_eq!(first.get("file_size").unwrap().as_u64(), Some(123));
    assert_eq!(first.get("added_at").unwrap().as_str(), Some("2025-10-30T12:00:00Z"));
    let second = elements[1].as_object().unwrap();
    assert_eq!(second.get("file_size").unwrap().as_u64(), Some(u64::MAX));
    assert_eq!(second.get("added_at").unwrap().as_str(), Some(""));
    assert_eq!(doc, Value::Array(vec![
        torrent_object("Cowboy Movie", "hashcowboy", 123, "2025-10-30T12:00:00Z"),
        torrent_object("Big", "hashbig", u64::MAX, ""),
    ]));
}

#[test]
fn tracker_document_holds_each_field_under_its_name() {
    let mut tracker = Tracker::new();
    tracker.announce_peer(cowpoke());
    tracker.announce_peer(Peer {
        peer_id: "drifter".to_string(),
        info_hash: "hashother".to_string(),
        status: PeerStatus::Leeching,
    });
    let doc = tracker_document(&tracker);
    assert_eq!(doc, Value::Array(vec![
        peer_object("cowpoke", "hashcowboy", "Seeding"),
        peer_object("drifter", "hashother", "Leeching"),
    ]));
    let first = doc.as_array().unwrap()[0].as_object().unwrap();
    assert_eq!(first.len(), 3);
    assert_eq!(first.get("status").unwrap().as_str(), Some("Seeding"));
}

#[test]
fn load_keeps_the_first_of_two_torrents_with_one_hash() {
    let text = "[{\"name\":\"First\",\"info_hash\":\"samehash\",\"file_size\":1,\"added_at\":\"2025-01-01T00:00:00Z\"},\
                 {\"name\":\"Second\",\"info_hash\":\"samehash\",\"file_size\":2,\"added_at\":\"2025-02-02T00:00:00Z\"}]";
    let loaded = load_index(text).unwrap();
    let list = loaded.list_torrents();
    assert_eq!(list.len(), 1);
    assert_eq!(list[0].name, "First");
    assert_eq!(list[0].info_hash, "samehash");
    assert_eq!(list[0].file_size, 1);
    assert_eq!(list[0].added_at, "2025-01-01T00:00:00Z");
}

#[test]
fn load_keeps_the_first_of_two_peers_with_one_hash_and_identifier() {
    let text = "[{\"peer_id\":\"p\",\"info_hash\":\"h\",\"status\":\"Leeching\"},\
                 {\"peer_id\":\"p\",\"info_hash\":\"h\",\"status\":\"Seeding\"},\
                 {\"peer_id\":\"p\",\"info_hash\":\"g\",\"status\":\"Seeding\"}]";
    let loaded = load_tracker(text).unwrap();
    let for_h = loaded.list_peers("h");
    assert_eq!(for_h.len(), 1);
    assert_eq!(for_h[0].status, PeerStatus::Leeching);
    let for_g = loaded.list_peers("g");
    assert_eq!(for_g.len(), 1);
    assert_eq!(for_g[0].status, PeerStatus::Seeding);
}

#[test]
fn index_round_trip_keeps_every_torrent_in_order() {
    let mut index = Index::new();
    let torrents = vec![
        Torrent {
            name: "Quote \" and \\ backslash".to_string(),
            info_hash: "h1".to_string(),
            file_size: 0,
            added_at: "2025-10-30T12:00:00Z".to_string(),
        },
        Torrent {
            name: "Zeile\nzwei\tüber – 日本語".to_string(),
            info_hash: "h2".to_string(),
            file_size: u64::MAX,
            added_at: "".to_string(),
        },
        Torrent {
            name: "".to_string(),
            info_hash: "".to_string(),
            file_size: 1024 * 1024 * 700,
            added_at: "not a date".to_string(),
        },
    ];
    for t in &torrents {
        assert!(index.add_torrent(t.clone()));
    }
    let loaded = load_index(&save_index(&index).unwrap()).unwrap();
    let list = loaded.list_torrents();
    assert_eq!(list.len(), 3);
    for (listed, added) in list.iter().zip(torrents.iter()) {
        assert_eq!(*listed, added);
    }
    assert_eq!(save_index(&loaded).unwrap(), save_index(&index).unwrap());
}

#[test]
fn tracker_round_trip_keeps_every_swarm() {
    let mut tracker = Tracker::new();
    let announces = [
        ("c", "hashA", PeerStatus::Seeding),
        ("x", "hashB", PeerStatus::Seeding),
        ("a", "hashA", PeerStatus::Leeching),
        ("y", "hashB", PeerStatus::Leeching),
        ("c", "hashC", PeerStatus::Leeching),
    ];
    for (peer_id, info_hash, status) in announces.iter() {
        assert!(tracker.announce_peer(Peer {
            peer_id: peer_id.to_string(),
            info_hash: info_hash.to_string(),
            status: status.clone(),
        }));
    }
    let loaded = load_tracker(&save_tracker(&tracker).unwrap()).unwrap();
    for hash in ["hashA", "hashB", "hashC", "hashD"] {
        let before: Vec<Peer> = tracker.list_peers(hash).into_iter().cloned().collect();
        let after: Vec<Peer> = loaded.list_peers(hash).into_iter().cloned().collect();
        assert_eq!(before, after);
    }
    assert_eq!(loaded.list_peers("hashA").len(), 2);
    assert_eq!(loaded.list_peers("hashD").len(), 0);
    assert_eq!(save_tracker(&loaded).unwrap(), save_tracker(&tracker).unwrap());
}

#[test]
fn load_index_reads_fields_in_any_order_and_passes_over_others() {
    let text = " [ { \"file_size\" : 7, \"extra\": [1, 2.5, null], \"added_at\": \"t\", \"name\": \"N\", \"info_hash\": \"H\" } ] ";
    let loaded = load_index(text).unwrap();
    let list = loaded.list_torrents();
    assert_eq!(list.len(), 1);
    assert_eq!(
        *list[0],
        Torrent {
            name: "N".to_string(),
            info_hash: "H".to_string(),
            file_size: 7,
            added_at: "t".to_string()
        }
    );
}

#[test]
fn load_of_an_empty_array_is_an_empty_registry() {
    assert!(load_index("[]").unwrap().list_torrents().is_empty());
    assert!(load_tracker("[]").unwrap().all_peers().is_empty());
}

#[test]
fn load_index_refuses_text_that_is_no_json() {
    for text in ["", "[", "not json", "[{\"name\":}]", "[] []", "{\"name\": \"x\""] {
        assert!(matches!(load_index(text), Err(DbError::Malformed)), "{:?}", text);
        assert!(matches!(load_tracker(text), Err(DbError::Malformed)), "{:?}", text);
    }
}

#[test]
fn load_index_refuses_a_document_that_is_no_array() {
    for text in ["{}", "null", "true", "12", "\"text\"",
        "{\"name\":\"N\",\"info_hash\":\"H\",\"file_size\":7,\"added_at\":\"t\"}"] {
        assert!(matches!(load_index(text), Err(DbError::Malformed)), "{:?}", text);
        assert!(matches!(load_tracker(text), Err(DbError::Malformed)), "{:?}", text);
    }
}

#[test]
fn index_from_document_refuses_a_missing_field() {
    let whole = torrent_object("N", "H", 7, "t");
    assert!(index_from_document(&Value::Array(vec![whole.clone()])).is_ok());
    for missing in ["name", "info_hash", "file_size", "added_at"] {
        let mut map = whole.as_object().unwrap().clone();
        map.remove(missing);
        assert!(index_is_malformed(&Value::Array(vec![Value::Object(map)])), "{}", missing);
    }
}

#[test]
fn index_from_document_refuses_a_field_of_the_wrong_type() {
    let wrong = [
        object(&[("name", Value::from(1u64)), ("info_hash", Value::from("H")),
            ("file_size", Value::from(7u64)), ("added_at", Value::from("t"))]),
        object(&[("name", Value::from("N")), ("info_hash", Value::Null),
            ("file_size", Value::from(7u64)), ("added_at", Value::from("t"))]),
        object(&[("name", Value::from("N")), ("info_hash", Value::from("H")),
            ("file_size", Value::from("7")), ("added_at", Value::from("t"))]),
        object(&[("name", Value::from("N")), ("info_hash", Value::from("H")),
            ("file_size", Value::from(-7i64)), ("added_at", Value::from("t"))]),
        object(&[("name", Value::from("N")), ("info_hash", Value::from("H")),
            ("file_size", Value::from(7u64)), ("added_at", Value::Bool(true))]),
    ];
    for element in wrong.iter() {
        assert!(index_is_malformed(&Value::Array(vec![element.clone()])), "{}", element);
    }
}

#[test]
fn load_index_refuses_a_size_that_is_no_unsigned_integer() {
    for size in ["-1", "1.5", "7.0", "1e3", "18446744073709551616", "\"7\"", "null"] {
        let text = format!(
            "[{{\"name\":\"N\",\"info_hash\":\"H\",\"file_size\":{},\"added_at\":\"t\"}}]",
            size
        );
        assert!(matches!(load_index(&text), Err(DbError::Malformed)), "{}", size);
    }
    let text = "[{\"name\":\"N\",\"info_hash\":\"H\",\"file_size\":18446744073709551615,\"added_at\":\"t\"}]";
    assert_eq!(load_index(text).unwrap().list_torrents()[0].file_size, u64::MAX);
}

#[test]
fn index_from_document_refuses_an_element_that_is_no_object() {
    let good = torrent_object("N", "H", 7, "t");
    for bad in [Value::Null, Value::from("N"), Value::from(7u64), Value::Array(vec![]),
        Value::Array(vec![Value::from("N"), Value::from("H"), Value::from(7u64), Value::from("t")])] {
        assert!(index_is_malformed(&Value::Array(vec![good.clone(), bad.clone()])), "{}", bad);
        assert!(index_is_malformed(&Value::Array(vec![bad.clone(), good.clone()])), "{}", bad);
    }
}

#[test]
fn one_bad_entry_spoils_the_whole_snapshot() {
    let text = "[{\"name\":\"A\",\"info_hash\":\"h1\",\"file_size\":1,\"added_at\":\"t\"},\
                 {\"name\":\"B\",\"info_hash\":\"h2\",\"added_at\":\"t\"},\
                 {\"name\":\"C\",\"info_hash\":\"h3\",\"file_size\":3,\"added_at\":\"t\"}]";
    assert!(matches!(load_index(text), Err(DbError::Malformed)));
    let text = "[{\"peer_id\":\"a\",\"info_hash\":\"h\",\"status\":\"Seeding\"},\
                 {\"peer_id\":\"b\",\"info_hash\":\"h\",\"status\":\"Resting\"}]";
    assert!(matches!(load_tracker(text), Err(DbError::Malformed)));
}

#[test]
fn tracker_from_document_refuses_an_unknown_status() {
    for status in ["seeding", "SEEDING", "Seeding ", "Leech", "", "Paused"] {
        let doc = Value::Array(vec![peer_object("p", "h", status)]);
        assert!(tracker_is_malformed(&doc), "{:?}", status);
    }
    for (status, expected) in [("Seeding", PeerStatus::Seeding), ("Leeching", PeerStatus::Leeching)] {
        let doc = Value::Array(vec![peer_object("p", "h", status)]);
        let tracker = tracker_from_document(&doc).unwrap();
        assert_eq!(tracker.list_peers("h")[0].status, expected);
    }
}

#[test]
fn tracker_from_document_refuses_a_missing_or_mistyped_field() {
    let whole = peer_object("p", "h", "Seeding");
    assert!(tracker_from_document(&Value::Array(vec![whole.clone()])).is_ok());
    for missing in ["peer_id", "info_hash", "status"] {
        let mut map = whole.as_object().unwrap().clone();
        map.remove(missing);
        assert!(tracker_is_malformed(&Value::Array(vec![Value::Object(map)])), "{}", missing);
        let mut map = whole.as_object().unwrap().clone();
        map.insert(missing.to_string(), Value::from(1u64));
        assert!(tracker_is_malformed(&Value::Array(vec![Value::Object(map)])), "{}", missing);
    }
    assert!(tracker_is_malformed(&Value::Array(vec![Value::from("Seeding")])));
    assert!(tracker_is_malformed(&whole));
    let mut nested = serde_json::Map::new();
    nested.insert("Seeding".to_string(), Value::Null);
    let mut map = whole.as_object().unwrap().clone();
    map.insert("status".to_string(), Value::Object(nested));
    assert!(tracker_is_malformed(&Value::Array(vec![Value::Object(map)])));
}

#[test]
fn load_tracker_groups_peers_by_their_own_hash() {
    let text = "[{\"peer_id\":\"a\",\"info_hash\":\"h1\",\"status\":\"Seeding\"},\
                 {\"peer_id\":\"b\",\"info_hash\":\"h2\",\"status\":\"Leeching\"},\
                 {\"peer_id\":\"c\",\"info_hash\":\"h1\",\"status\":\"Leeching\"}]";
    let loaded = load_tracker(text).unwrap();
    let ids: Vec<&str> = loaded.list_peers("h1").iter().map(|p| p.peer_id.as_str()).collect();
    assert_eq!(ids, vec!["a", "c"]);
    let ids: Vec<&str> = loaded.list_peers("h2").iter().map(|p| p.peer_id.as_str()).collect();
    assert_eq!(ids, vec!["b"]);
    let order: Vec<&str> = loaded.all_peers().iter().map(|p| p.peer_id.as_str()).collect();
    assert_eq!(order, vec!["a", "c", "b"]);
}

#[test]
fn loaded_index_answers_like_one_built_by_hand() {
    let text = "[{\"name\":\"Ubuntu\",\"info_hash\":\"hash1\",\"file_size\":1,\"added_at\":\"t\"},\
                 {\"name\":\"Fedora\",\"info_hash\":\"hash2\",\"file_size\":2,\"added_at\":\"t\"}]";
    let mut loaded = load_index(text).unwrap();
    assert_eq!(loaded.get_torrent("hash2").unwrap().name, "Fedora");
    assert_eq!(loaded.search_torrents("Ubu").len(), 1);
    assert!(!loaded.add_torrent(Torrent {
        name: "Other".to_string(),
        info_hash: "hash1".to_string(),
        file_size: 9,
        added_at: "t".to_string(),
    }));
    assert_eq!(loaded.list_torrents().len(), 2);
}

#[test]
fn errors_compare_and_print() {
    assert_ne!(DbError::Encode, DbError::Malformed);
    assert_eq!(format!("{:?}", DbError::Malformed), "Malformed");
    assert_eq!(format!("{:?}", DbError::Encode), "Encode");
}

#[test]
fn documents_load_back_as_the_registries_they_were_made_from() {
    let mut index = Index::new();
    index.add_torrent(cowboy_movie());
    index.add_torrent(Torrent {
        name: "Second".to_string(),
        info_hash: "hashsecond".to_string(),
        file_size: 0,
        added_at: "2025-10-31T00:00:00Z".to_string(),
    });
    let loaded = index_from_document(&index_document(&index)).unwrap();
    let before: Vec<Torrent> = index.list_torrents().into_iter().cloned().collect();
    let after: Vec<Torrent> = loaded.list_torrents().into_iter().cloned().collect();
    assert_eq!(before, after);

    let mut tracker = Tracker::new();
    tracker.announce_peer(cowpoke());
    tracker.announce_peer(Peer {
        peer_id: "cowpoke".to_string(),
        info_hash: "hashother".to_string(),
        status: PeerStatus::Leeching,
    });
    let loaded = tracker_from_document(&tracker_document(&tracker)).unwrap();
    let before: Vec<Peer> = tracker.all_peers().into_iter().cloned().collect();
    let after: Vec<Peer> = loaded.all_peers().into_iter().cloned().collect();
    assert_eq!(before, after);
}
