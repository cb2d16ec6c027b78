use content_store::backend::{MemBackend, PutResult};
use content_store::digest::{digest_eq, digest_of, Digest, DIGEST_LEN};
use content_store::node::{decode, encode};
use content_store::protocol::{Sink, Snapshot, Value};
use content_store::store::{Store, StoreError, MAX_GENERATIONS};

fn leaf(bytes: &[u8]) -> Value {
    Value { data: bytes.to_vec(), children: Vec::new() }
}

fn node(bytes: &[u8], children: Vec<Value>) -> Value {
    Value { data: bytes.to_vec(), children }
}

#[test]
fn nested_value_stores_two_blobs_and_restores() {
    let mut store = Store::volatile();
    let b = leaf(&[2]);
    let a = node(&[1], vec![leaf(&[2])]);
    let snap_a = store.persist(&a);
    let blobs = store.flush();
    assert_eq!(blobs.len(), 2);
    let snap_b = store.persist(&b);
    assert!(store.flush().is_empty());
    // the child's blob is written first, and it is b's own entry
    assert_eq!(blobs[0].0, *snap_b.hash());
    assert_eq!(blobs[1].0, *snap_a.hash());
    assert_eq!(blobs[1].1[0], 1u8);
    assert_eq!(&blobs[1].1[1..1 + DIGEST_LEN], &snap_b.hash()[..]);

    let back = store.restore(&snap_a).ok().unwrap();
    assert_eq!(back.data, vec![1u8]);
    assert_eq!(back.children.len(), 1);
    assert_eq!(back.children[0].data, vec![2u8]);
    assert!(back.children[0].children.is_empty());

    let only_b = store.restore(&snap_b).ok().unwrap();
    assert_eq!(only_b.data, vec![2u8]);
    assert!(only_b.children.is_empty());
}

#[test]
fn persisting_twice_gives_the_same_digest() {
    let v = node(b"root", vec![leaf(b"x"), node(b"y", vec![leaf(b"z")])]);
    let mut s1 = Store::volatile();
    let first = s1.persist(&v);
    let second = s1.persist(&v);
    assert_eq!(first.hash(), second.hash());
    let mut s2 = Store::volatile();
    let fresh = s2.persist(&v);
    assert_eq!(first.hash(), fresh.hash());
    assert_eq!(first.as_bytes(), fresh.as_bytes());
}

#[test]
fn equal_values_dedup_to_distinct_parts() {
    let mut store = Store::volatile();
    let v1 = node(b"p", vec![leaf(b"same"), leaf(b"same")]);
    let v2 = node(b"p", vec![leaf(b"same"), leaf(b"same")]);
    let d1 = store.persist(&v1);
    // two distinct parts: the shared child and the parent
    assert_eq!(store.flush().len(), 2);
    let size_after_first = store.size();
    let d2 = store.persist(&v2);
    assert_eq!(d1.hash(), d2.hash());
    assert!(store.flush().is_empty());
    assert_eq!(store.size(), size_after_first);
}

#[test]
fn round_trip_restores_structure() {
    let v = node(b"top", vec![node(b"mid", vec![leaf(b"low1"), leaf(b"")]), leaf(b"side")]);
    let mut store = Store::volatile();
    let snap = store.persist(&v);
    let w = store.restore(&snap).ok().unwrap();
    assert_eq!(w.data, b"top".to_vec());
    assert_eq!(w.children.len(), 2);
    assert_eq!(w.children[0].data, b"mid".to_vec());
    assert_eq!(w.children[0].children.len(), 2);
    assert_eq!(w.children[0].children[0].data, b"low1".to_vec());
    assert!(w.children[0].children[1].data.is_empty());
    assert_eq!(w.children[1].data, b"side".to_vec());
    let again = store.get_hash(snap.hash()).ok().unwrap();
    assert_eq!(again.data, b"top".to_vec());
}

#[test]
fn newest_generation_wins_on_read() {
    let digest: Digest = [7u8; 32];
    let mut older = MemBackend::new();
    assert_eq!(older.put(digest, vec![0, 0xAA]), PutResult::Stored);
    let mut store = Store::volatile();
    assert_eq!(store.put(digest, vec![0, 0xBB]), PutResult::Stored);
    assert!(store.push_generation(older).is_ok());
    assert_eq!(store.generation_count(), 2);
    assert_eq!(store.get_bytes(&digest), Some(vec![0, 0xBB]));
    let v = store.get_hash(&digest).ok().unwrap();
    assert_eq!(v.data, vec![0xBBu8]);
}

#[test]
fn older_generation_is_read_when_newest_misses() {
    let digest: Digest = [9u8; 32];
    let mut older = MemBackend::new();
    older.put(digest, vec![0, 5]);
    let mut store = Store::volatile();
    store.push_generation(older).ok().unwrap();
    assert_eq!(store.get_bytes(&digest), Some(vec![0, 5]));
    // a put of a digest that an older tier holds changes nothing
    assert_eq!(store.put(digest, vec![0, 6]), PutResult::AlreadyThere);
    assert_eq!(store.get_bytes(&digest), Some(vec![0, 5]));
    assert!(store.flush().is_empty());
}

#[test]
fn at_most_eight_generations() {
    let mut store = Store::volatile();
    for _ in 1..MAX_GENERATIONS {
        assert!(store.push_generation(MemBackend::new()).is_ok());
    }
    assert_eq!(store.generation_count(), MAX_GENERATIONS);
    assert!(store.push_generation(MemBackend::new()).is_err());
    assert_eq!(store.generation_count(), MAX_GENERATIONS);
}

#[test]
fn unknown_digest_is_not_found() {
    let mut store = Store::volatile();
    store.persist(&leaf(b"something"));
    let missing = Snapshot::new([3u8; 32]);
    assert!(matches!(store.restore(&missing), Err(StoreError::NotFound)));
    assert!(matches!(store.get_hash(&[4u8; 32]), Err(StoreError::NotFound)));
}

#[test]
fn malformed_bytes_are_a_decode_error() {
    let mut store = Store::volatile();
    let digest: Digest = [1u8; 32];
    store.put(digest, vec![7, 7, 7]);
    assert!(matches!(store.get_hash(&digest), Err(StoreError::Decode)));
    let empty: Digest = [2u8; 32];
    store.put(empty, Vec::new());
    assert!(matches!(store.get_hash(&empty), Err(StoreError::Decode)));
    // a child tag with a truncated digest
    let short: Digest = [5u8; 32];
    store.put(short, vec![1, 1, 2, 3]);
    assert!(matches!(store.get_hash(&short), Err(StoreError::Decode)));
}

#[test]
fn missing_child_fails_the_whole_restore() {
    let mut store = Store::volatile();
    let mut sink = Sink::new();
    sink.embed(&Snapshot::new([8u8; 32]));
    sink.write(b"parent");
    let snap = store.fin(sink);
    assert!(matches!(store.restore(&snap), Err(StoreError::NotFound)));
}

#[test]
fn nesting_budget_is_enforced() {
    let mut store = Store::volatile();
    let v = node(b"a", vec![node(b"b", vec![leaf(b"c")])]);
    let snap = store.persist(&v);
    assert!(matches!(store.restore_within(&snap, 1), Err(StoreError::Decode)));
    assert!(store.restore_within(&snap, 2).is_ok());
    let l = store.persist(&leaf(b"leaf"));
    assert!(store.restore_within(&l, 0).is_ok());
}

#[test]
fn sink_and_source_mirror_each_other() {
    let mut store = Store::volatile();
    let child = store.persist(&leaf(b"kid"));
    let mut sink = Sink::new();
    sink.write(b"ab");
    sink.embed(&child);
    sink.write(b"cd");
    let snap = store.fin(sink);
    let src = store.open(&snap).ok().unwrap();
    assert_eq!(src.child_count(), 1);
    assert_eq!(src.child(0).hash(), child.hash());
    assert_eq!(src.data(), &b"abcd".to_vec());
}

#[test]
fn digest_is_of_the_node_bytes() {
    let mut store = Store::volatile();
    let kid = store.persist(&leaf(b"k"));
    let v = node(b"data", vec![leaf(b"k")]);
    let snap = store.persist(&v);
    let bytes = encode(&vec![*kid.hash()], &b"data".to_vec());
    let expected = digest_of(&bytes);
    assert_eq!(*snap.hash(), expected);
    assert!(digest_eq(snap.hash(), &expected));
    assert!(!digest_eq(snap.hash(), kid.hash()));
}

#[test]
fn digest_differs_from_input_and_is_stable() {
    let input = [0u8; 32];
    let d = digest_of(&input);
    assert_eq!(d.len(), DIGEST_LEN);
    assert_ne!(d, input);
    assert_eq!(d, digest_of(&input));
    assert_ne!(digest_of(b"a"), digest_of(b"b"));
}

#[test]
fn node_layout_is_exact() {
    let kid: Digest = [5u8; 32];
    let bytes = encode(&vec![kid], &vec![9u8]);
    let mut expected = vec![1u8];
    expected.extend_from_slice(&[5u8; 32]);
    expected.push(0);
    expected.push(9);
    assert_eq!(bytes, expected);
    let (kids, data) = decode(&bytes).unwrap();
    assert_eq!(kids, vec![kid]);
    assert_eq!(data, vec![9u8]);
    assert!(decode(&vec![2u8]).is_none());
    assert!(decode(&Vec::new()).is_none());
    assert_eq!(decode(&vec![0u8]), Some((Vec::new(), Vec::new())));
}

#[test]
fn snapshots_compare_by_digest() {
    let mut store = Store::volatile();
    let a = store.persist(&leaf(b"one"));
    let b = store.persist(&leaf(b"one"));
    let c = store.persist(&leaf(b"two"));
    assert!(a == b);
    assert!(a != c);
    assert!(Snapshot::new(*a.hash()) == a);
}
