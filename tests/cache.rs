use std::cell::RefCell;
use std::collections::HashMap;

use rsdiff::cache::{Cache, CacheError};
use rsdiff::index::Index;

#[derive(Default)]
struct MemoryCache {
    entries: RefCell<HashMap<Vec<u8>, Vec<u8>>>,
    puts: RefCell<usize>,
}

impl Cache for MemoryCache {
    fn get(&self, digest: &[u8]) -> Result<Option<Vec<u8>>, CacheError> {
        Ok(self.entries.borrow().get(digest).cloned())
    }

    fn put(&self, digest: &[u8], entry: &[u8]) -> Result<(), CacheError> {
        *self.puts.borrow_mut() += 1;
        self.entries.borrow_mut().insert(digest.to_vec(), entry.to_vec());
        Ok(())
    }
}

struct FailingCache;

impl Cache for FailingCache {
    fn get(&self, _digest: &[u8]) -> Result<Option<Vec<u8>>, CacheError> {
        Err(CacheError { message: "unavailable".to_string() })
    }

    fn put(&self, _digest: &[u8], _entry: &[u8]) -> Result<(), CacheError> {
        Ok(())
    }
}

#[test]
fn cache_miss_builds_and_stores() {
    let cache = MemoryCache::default();
    let data = b"this is a test".to_vec();
    let index = Index::from_cache_or_compute(&cache, data.clone()).unwrap();
    assert_eq!(index.offsets(), Index::compute(data.clone()).offsets());
    assert_eq!(*cache.puts.borrow(), 1);
    let entries = cache.entries.borrow();
    let entry = entries.values().next().unwrap();
    assert_eq!(entry.len(), 20 + 8 * data.len());
}

#[test]
fn cache_hit_is_adopted_without_writing() {
    let cache = MemoryCache::default();
    let data = b"abracadabra".to_vec();
    Index::from_cache_or_compute(&cache, data.clone()).unwrap();
    let again = Index::from_cache_or_compute(&cache, data.clone()).unwrap();
    assert_eq!(*cache.puts.borrow(), 1);
    assert_eq!(again.offsets(), Index::compute(data).offsets());
}

#[test]
fn corrupted_digest_is_rebuilt_and_overwritten() {
    let cache = MemoryCache::default();
    let data = b"abracadabra".to_vec();
    Index::from_cache_or_compute(&cache, data.clone()).unwrap();
    let key = cache.entries.borrow().keys().next().unwrap().clone();
    cache.entries.borrow_mut().get_mut(&key).unwrap()[3] ^= 0xff;
    let index = Index::from_cache_or_compute(&cache, data.clone()).unwrap();
    assert_eq!(index.offsets(), Index::compute(data).offsets());
    assert_eq!(*cache.puts.borrow(), 2);
    assert_eq!(&cache.entries.borrow()[&key][..20], &key[..]);
}

#[test]
fn bad_offsets_with_good_digest_are_rebuilt() {
    let data = b"banana".to_vec();
    let index = Index::compute(data.clone());
    let digest = vec![7u8; 20];
    let mut entry = index.serialize(&digest);
    entry[20] = 1;
    let (rebuilt, stored) = Index::load_or_build(data.clone(), &digest, Some(entry));
    assert_eq!(rebuilt.offsets(), index.offsets());
    assert_eq!(stored, Some(index.serialize(&digest)));
}

#[test]
fn short_entry_is_rebuilt() {
    let data = b"banana".to_vec();
    let digest = vec![1u8; 20];
    let (index, stored) = Index::load_or_build(data.clone(), &digest, Some(digest.clone()));
    assert_eq!(index.offsets(), &vec![5, 3, 1, 0, 4, 2]);
    assert!(stored.is_some());
}

#[test]
fn serialized_entry_layout() {
    let index = Index::compute(b"ab".to_vec());
    let digest: Vec<u8> = (0..20).collect();
    let entry = index.serialize(&digest);
    let mut expected = digest.clone();
    expected.extend_from_slice(&[0, 0, 0, 0, 0, 0, 0, 0, 1, 0, 0, 0, 0, 0, 0, 0]);
    assert_eq!(entry, expected);
    let (loaded, stored) = Index::load_or_build(b"ab".to_vec(), &digest, Some(entry));
    assert_eq!(loaded.offsets(), &vec![0, 1]);
    assert_eq!(stored, None);
}

#[test]
fn cache_errors_propagate() {
    assert!(Index::from_cache_or_compute(&FailingCache, b"x".to_vec()).is_err());
}

#[test]
fn cache_key_is_sha1_of_version_and_data() {
    let cache = MemoryCache::default();
    Index::from_cache_or_compute(&cache, b"abracadabra".to_vec()).unwrap();
    let key = cache.entries.borrow().keys().next().unwrap().clone();
    let hex: String = key.iter().map(|b| format!("{:02x}", b)).collect();
    assert_eq!(hex, "c0f460177521862f2f801bfbceddfbe5dede312a");
}
