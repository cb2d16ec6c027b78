use content_store::backend::{MemBackend, PutResult};
use content_store::cache::Cache;
use content_store::digest::Digest;
use content_store::store::Store;

#[test]
fn mem_backend_puts_once() {
    let mut b = MemBackend::new();
    let d: Digest = [1u8; 32];
    assert_eq!(b.get(&d), None);
    assert_eq!(b.put(d, vec![1, 2, 3]), PutResult::Stored);
    assert_eq!(b.put(d, vec![9]), PutResult::AlreadyThere);
    assert_eq!(b.get(&d), Some(vec![1, 2, 3]));
    assert!(b.contains(&d));
    assert_eq!(b.size(), 3);
    let flushed = b.flush();
    assert_eq!(flushed, vec![(d, vec![1, 2, 3])]);
    assert!(b.flush().is_empty());
    assert_eq!(b.get(&d), Some(vec![1, 2, 3]));
}

#[test]
fn store_size_sums_generations() {
    let mut older = MemBackend::new();
    older.put([2u8; 32], vec![0; 10]);
    let mut store = Store::volatile();
    assert_eq!(store.size(), 0);
    store.put([3u8; 32], vec![0; 4]);
    store.push_generation(older).ok().unwrap();
    assert_eq!(store.size(), 14);
}

#[test]
fn cache_respects_entry_bound() {
    let mut c = Cache::new(2, 100);
    c.insert([1u8; 32], vec![1]);
    c.insert([2u8; 32], vec![2]);
    c.insert([3u8; 32], vec![3]);
    assert_eq!(c.len(), 2);
    assert_eq!(c.lookup(&[1u8; 32]), None);
    assert_eq!(c.lookup(&[2u8; 32]), Some(vec![2]));
    assert_eq!(c.lookup(&[3u8; 32]), Some(vec![3]));
}

#[test]
fn cache_respects_byte_bound() {
    let mut c = Cache::new(10, 5);
    c.insert([1u8; 32], vec![0; 3]);
    c.insert([2u8; 32], vec![0; 3]);
    assert_eq!(c.len(), 1);
    assert_eq!(c.lookup(&[1u8; 32]), None);
    assert_eq!(c.lookup(&[2u8; 32]), Some(vec![0; 3]));
    c.insert([3u8; 32], vec![0; 6]);
    assert_eq!(c.lookup(&[3u8; 32]), None);
    assert_eq!(c.len(), 1);
    let mut none = Cache::new(0, 5);
    none.insert([4u8; 32], vec![1]);
    assert_eq!(none.len(), 0);
}

#[test]
fn cached_reads_match_uncached_reads() {
    let mut store = Store::volatile();
    let d: Digest = [6u8; 32];
    store.put(d, vec![0, 42]);
    let first = store.get_bytes(&d);
    let second = store.get_bytes(&d);
    assert_eq!(first, Some(vec![0, 42]));
    assert_eq!(first, second);
}
