use namespace_registry::cas::classify_create;
use namespace_registry::cas::classify_delete;
use namespace_registry::cas::classify_update;
use namespace_registry::cas::KvEntry;
use namespace_registry::cas::MatchSeq;
use namespace_registry::cas::UpsertOutcome;
use namespace_registry::error::RegistryError;
use namespace_registry::keys::decode_key;
use namespace_registry::keys::encode_key;
use namespace_registry::keys::namespace_prefix;
use namespace_registry::manager::update_round;
use namespace_registry::manager::NamespaceMgr;
use namespace_registry::manager::UPDATE_ATTEMPTS;
use namespace_registry::node::decode_node;
use namespace_registry::node::encode_node;
use namespace_registry::node::NodeInfo;
use namespace_registry::store::KvApi;
use namespace_registry::store::MemStore;

fn node(id: &str) -> NodeInfo {
    NodeInfo {
        id: id.to_string(),
        cpu_nums: 0,
        version: 0,
        ip: "".to_string(),
        port: 0,
    }
}

fn full_node(id: &str, cpu_nums: u64, version: u32, ip: &str, port: u32) -> NodeInfo {
    NodeInfo {
        id: id.to_string(),
        cpu_nums,
        version,
        ip: ip.to_string(),
        port,
    }
}

fn entry(seq: u64) -> KvEntry {
    KvEntry {
        seq,
        value: vec![],
        meta: None,
    }
}

fn mgr() -> NamespaceMgr<MemStore> {
    NamespaceMgr::new(MemStore::new())
}

#[test]
fn test_add_node() {
    // An empty answer to a create is anomalous, not a success.
    let empty = UpsertOutcome {
        prev: None,
        result: None,
    };
    assert_eq!(classify_create(&empty), Err(RegistryError::UnknownException));

    // A previous entry means the node is already registered.
    let taken = UpsertOutcome {
        prev: Some(entry(1)),
        result: None,
    };
    assert_eq!(classify_create(&taken), Err(RegistryError::NodeAlreadyExists));

    let mut m = mgr();
    let n = node("node1");
    assert_eq!(m.add_node("tenant1", "cluster1", &n), Ok(()));
    assert_eq!(
        m.add_node("tenant1", "cluster1", &n),
        Err(RegistryError::NodeAlreadyExists)
    );
}

#[test]
fn key_is_prefix_and_parts_joined_by_slash() {
    let k = encode_key("tenant1", "cluster1", "node1").unwrap();
    assert_eq!(k, format!("{}/{}/{}/{}", "__fd_namespaces", "tenant1", "cluster1", "node1").into_bytes());
    let p = namespace_prefix("tenant1", "cluster1").unwrap();
    assert_eq!(p, b"__fd_namespaces/tenant1/cluster1/".to_vec());
    assert!(k.starts_with(&p));
}

#[test]
fn key_round_trip() {
    let k = encode_key("t", "ns", "n-\u{e9}").unwrap();
    let (t, n, i) = decode_key(&k).unwrap();
    assert_eq!(t, "t");
    assert_eq!(n, "ns");
    assert_eq!(i, "n-\u{e9}");
}

#[test]
fn key_with_empty_components_round_trips() {
    let k = encode_key("", "", "").unwrap();
    assert_eq!(decode_key(&k).unwrap(), ("".to_string(), "".to_string(), "".to_string()));
}

#[test]
fn key_rejects_separator_in_any_component() {
    assert_eq!(encode_key("a/b", "ns", "n"), Err(RegistryError::InvalidIdentifier));
    assert_eq!(encode_key("t", "a/b", "n"), Err(RegistryError::InvalidIdentifier));
    assert_eq!(encode_key("t", "ns", "a/b"), Err(RegistryError::InvalidIdentifier));
    assert_eq!(namespace_prefix("t", "a/"), Err(RegistryError::InvalidIdentifier));
}

#[test]
fn decode_key_rejects_malformed_keys() {
    assert_eq!(decode_key(b"__fd_namespaces/t/ns"), Err(RegistryError::InvalidIdentifier));
    assert_eq!(decode_key(b"__fd_namespaces/t/ns/n/x"), Err(RegistryError::InvalidIdentifier));
    assert_eq!(decode_key(b"__fd_namespacez/t/ns/n"), Err(RegistryError::InvalidIdentifier));
    assert_eq!(decode_key(b"short"), Err(RegistryError::InvalidIdentifier));
    assert_eq!(decode_key(b"__fd_namespaces/t/ns/\xff"), Err(RegistryError::InvalidIdentifier));
}

#[test]
fn node_codec_round_trip() {
    let n = full_node("node-7", 16, 3, "10.0.0.1", 9090);
    let b = encode_node(&n);
    assert_eq!(decode_node(&b), Ok(n));
}

#[test]
fn node_codec_layout() {
    let n = full_node("ab", 1, 2, "c", 3);
    let b = encode_node(&n);
    let mut want: Vec<u8> = vec![2, 0, 0, 0, 0, 0, 0, 0, b'a', b'b'];
    want.extend_from_slice(&[1, 0, 0, 0, 0, 0, 0, 0]);
    want.extend_from_slice(&[2, 0, 0, 0]);
    want.extend_from_slice(&[1, 0, 0, 0, 0, 0, 0, 0, b'c']);
    want.extend_from_slice(&[3, 0, 0, 0]);
    assert_eq!(b, want);
}

#[test]
fn node_codec_rejects_corrupt_bytes() {
    let n = full_node("node-7", 16, 3, "10.0.0.1", 9090);
    let mut b = encode_node(&n);
    b.push(0);
    assert_eq!(decode_node(&b), Err(RegistryError::CorruptRecord));
    assert_eq!(decode_node(&[]), Err(RegistryError::CorruptRecord));
    assert_eq!(decode_node(b"not a node"), Err(RegistryError::CorruptRecord));
}

#[test]
fn sequential_add_add() {
    let mut m = mgr();
    assert_eq!(m.add_node("t", "ns", &node("n")), Ok(()));
    assert_eq!(m.add_node("t", "ns", &node("n")), Err(RegistryError::NodeAlreadyExists));
}

#[test]
fn add_then_get() {
    let mut m = mgr();
    let n = full_node("n1", 8, 2, "192.168.1.2", 7070);
    m.add_node("t", "ns", &n).unwrap();
    assert_eq!(m.get_node("t", "ns", "n1"), Ok(n));
}

#[test]
fn exactly_one_winner() {
    let mut m = mgr();
    let a = m.add_node("t", "ns", &full_node("same", 1, 1, "a", 1));
    let b = m.add_node("t", "ns", &full_node("same", 2, 2, "b", 2));
    assert!(a.is_ok() != b.is_ok());
    assert_eq!(b, Err(RegistryError::NodeAlreadyExists));
    assert_eq!(m.get_node("t", "ns", "same"), Ok(full_node("same", 1, 1, "a", 1)));
}

#[test]
fn list_after_adds() {
    let mut m = mgr();
    m.add_node("t", "ns", &node("n1")).unwrap();
    m.add_node("t", "ns", &node("n2")).unwrap();
    m.add_node("t", "other", &node("n3")).unwrap();
    m.add_node("t", "ns2", &node("n4")).unwrap();
    let (mut nodes, skipped) = m.list_nodes("t", "ns").unwrap();
    nodes.sort_by(|x, y| x.id.cmp(&y.id));
    assert_eq!(nodes, vec![node("n1"), node("n2")]);
    assert_eq!(skipped, 0);
}

#[test]
fn list_skips_corrupt_records() {
    let mut m = mgr();
    m.add_node("t", "ns", &node("good")).unwrap();
    let bad = encode_key("t", "ns", "bad").unwrap();
    m.kv
        .upsert_kv(&bad, MatchSeq::Exact(0), Some(b"junk".to_vec()), None)
        .unwrap();
    let (nodes, skipped) = m.list_nodes("t", "ns").unwrap();
    assert_eq!(nodes, vec![node("good")]);
    assert_eq!(skipped, 1);
    assert_eq!(m.get_node("t", "ns", "bad"), Err(RegistryError::CorruptRecord));
}

#[test]
fn list_of_empty_namespace() {
    let m = mgr();
    assert_eq!(m.list_nodes("t", "ns"), Ok((vec![], 0)));
    assert_eq!(m.list_nodes("t/", "ns"), Err(RegistryError::InvalidIdentifier));
}

#[test]
fn update_race_is_stale() {
    let mut m = mgr();
    m.add_node("t", "ns", &node("n")).unwrap();
    let key = encode_key("t", "ns", "n").unwrap();
    // Caller A reads the sequence.
    let s = m.kv.get_kv(&key).unwrap().unwrap().seq;
    // Caller B updates first.
    m.update_node("t", "ns", &full_node("n", 4, 1, "b", 1)).unwrap();
    assert!(m.kv.get_kv(&key).unwrap().unwrap().seq > s);
    // Caller A's write on the old sequence loses.
    let o = m
        .kv
        .upsert_kv(&key, MatchSeq::Exact(s), Some(encode_node(&node("n"))), None)
        .unwrap();
    assert_eq!(classify_update(&o, s), Err(RegistryError::StaleSequence));
    assert_eq!(m.get_node("t", "ns", "n"), Ok(full_node("n", 4, 1, "b", 1)));
}

#[test]
fn update_replaces_record() {
    let mut m = mgr();
    m.add_node("t", "ns", &node("n")).unwrap();
    assert_eq!(m.update_node("t", "ns", &full_node("n", 2, 3, "x", 4)), Ok(()));
    assert_eq!(m.get_node("t", "ns", "n"), Ok(full_node("n", 2, 3, "x", 4)));
}

#[test]
fn update_of_absent_node() {
    let mut m = mgr();
    assert_eq!(m.update_node("t", "ns", &node("n")), Err(RegistryError::NodeNotFound));
    assert_eq!(
        m.update_node("t", "ns", &node("a/b")),
        Err(RegistryError::InvalidIdentifier)
    );
}

#[test]
fn remove_absent() {
    let mut m = mgr();
    assert_eq!(m.remove_node("t", "ns", "ghost", None), Err(RegistryError::NodeNotFound));
    assert_eq!(m.remove_node("t", "ns", "ghost", Some(3)), Err(RegistryError::NodeNotFound));
}

#[test]
fn remove_on_sequence() {
    let mut m = mgr();
    m.add_node("t", "ns", &node("n")).unwrap();
    let key = encode_key("t", "ns", "n").unwrap();
    let s = m.kv.get_kv(&key).unwrap().unwrap().seq;
    assert_eq!(m.remove_node("t", "ns", "n", Some(s + 1)), Err(RegistryError::StaleSequence));
    assert_eq!(m.remove_node("t", "ns", "n", Some(0)), Err(RegistryError::StaleSequence));
    assert_eq!(m.remove_node("t", "ns", "n", Some(s)), Ok(()));
    assert_eq!(m.get_node("t", "ns", "n"), Err(RegistryError::NodeNotFound));
}

#[test]
fn remove_unconditionally_then_add_again() {
    let mut m = mgr();
    m.add_node("t", "ns", &node("n")).unwrap();
    assert_eq!(m.remove_node("t", "ns", "n", None), Ok(()));
    assert_eq!(m.remove_node("t", "ns", "n", None), Err(RegistryError::NodeNotFound));
    assert_eq!(m.add_node("t", "ns", &node("n")), Ok(()));
}

#[test]
fn get_nodes_keeps_positions() {
    let mut m = mgr();
    m.add_node("t", "ns", &node("a")).unwrap();
    m.add_node("t", "ns", &node("c")).unwrap();
    let ids = vec!["c".to_string(), "b".to_string(), "a".to_string()];
    assert_eq!(
        m.get_nodes("t", "ns", &ids),
        Ok(vec![Some(node("c")), None, Some(node("a"))])
    );
    assert_eq!(m.get_nodes("t", "ns", &vec![]), Ok(vec![]));
    let bad = vec!["a".to_string(), "x/y".to_string()];
    assert_eq!(m.get_nodes("t", "ns", &bad), Err(RegistryError::InvalidIdentifier));
}

#[test]
fn get_node_errors() {
    let m = mgr();
    assert_eq!(m.get_node("t", "ns", "nobody"), Err(RegistryError::NodeNotFound));
    assert_eq!(m.get_node("t", "n/s", "x"), Err(RegistryError::InvalidIdentifier));
}

#[test]
fn cas_interpreter_scenarios() {
    let created = UpsertOutcome {
        prev: None,
        result: Some(entry(1)),
    };
    assert_eq!(classify_create(&created), Ok(()));
    let taken_and_kept = UpsertOutcome {
        prev: Some(entry(1)),
        result: Some(entry(1)),
    };
    assert_eq!(classify_create(&taken_and_kept), Err(RegistryError::NodeAlreadyExists));

    assert_eq!(classify_update(&created, 1), Err(RegistryError::NodeNotFound));
    let updated = UpsertOutcome {
        prev: Some(entry(4)),
        result: Some(entry(5)),
    };
    assert_eq!(classify_update(&updated, 4), Ok(()));
    assert_eq!(classify_update(&updated, 3), Err(RegistryError::StaleSequence));
    let vanished = UpsertOutcome {
        prev: Some(entry(4)),
        result: None,
    };
    assert_eq!(classify_update(&vanished, 4), Err(RegistryError::UnknownException));

    assert_eq!(classify_delete(&vanished, None), Ok(()));
    assert_eq!(classify_delete(&created, None), Err(RegistryError::NodeNotFound));
    assert_eq!(classify_delete(&updated, Some(3)), Err(RegistryError::StaleSequence));
    assert_eq!(classify_delete(&updated, Some(4)), Err(RegistryError::UnknownException));
    assert_eq!(classify_delete(&updated, None), Err(RegistryError::UnknownException));
}

#[test]
fn store_sequences_grow() {
    let mut s = MemStore::new();
    let o1 = s.upsert_kv(b"k", MatchSeq::Any, Some(vec![1]), None).unwrap();
    let o2 = s.upsert_kv(b"k", MatchSeq::Any, Some(vec![2]), Some(60)).unwrap();
    let s1 = o1.result.unwrap().seq;
    let r2 = o2.result.unwrap();
    assert!(s1 > 0);
    assert!(r2.seq > s1);
    assert_eq!(r2.value, vec![2]);
    assert_eq!(r2.meta, Some(60));
    assert_eq!(o2.prev.unwrap().value, vec![1]);
    let got = s.mget_kv(&vec![b"k".to_vec(), b"z".to_vec()]).unwrap();
    assert_eq!(got.len(), 2);
    assert_eq!(got[0].as_ref().unwrap().value, vec![2]);
    assert!(got[1].is_none());
}

#[test]
fn update_round_retries_then_gives_up() {
    let stale: Result<(), RegistryError> = Err(RegistryError::StaleSequence);
    assert_eq!(UPDATE_ATTEMPTS, 3);
    assert_eq!(update_round(0, stale), None);
    assert_eq!(update_round(1, stale), None);
    assert_eq!(update_round(2, stale), Some(Err(RegistryError::Contention)));
    assert_eq!(update_round(0, Ok(())), Some(Ok(())));
    assert_eq!(update_round(2, Ok(())), Some(Ok(())));
    assert_eq!(
        update_round(0, Err(RegistryError::NodeNotFound)),
        Some(Err(RegistryError::NodeNotFound))
    );
    assert_eq!(
        update_round(1, Err(RegistryError::Store)),
        Some(Err(RegistryError::Store))
    );
}

#[test]
fn list_counts_every_corrupt_record() {
    let mut m = mgr();
    m.add_node("t", "ns", &node("a")).unwrap();
    for id in ["x", "y", "z"] {
        let k = encode_key("t", "ns", id).unwrap();
        m.kv.upsert_kv(&k, MatchSeq::Exact(0), Some(vec![9]), None).unwrap();
    }
    let (nodes, skipped) = m.list_nodes("t", "ns").unwrap();
    assert_eq!(nodes, vec![node("a")]);
    assert_eq!(skipped, 3);
}
