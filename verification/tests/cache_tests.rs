use std::io::Cursor;

use fclones::enhanced_cache::{CacheBackend, CacheEntry, EnhancedCache, StoreInitError, StoreWriteError};
use fclones::semantic_hash::{SemanticHash, SemanticHashType};

fn local_cache() -> EnhancedCache {
    EnhancedCache::new(CacheBackend::File(String::from("cache.json")), None).unwrap()
}

fn entry(size: u64, modified: u64) -> CacheEntry {
    CacheEntry {
        semantic_hash: None,
        file_size: size,
        modified,
    }
}

#[test]
fn empty_store_always_recomputes() {
    let cache = local_cache();
    assert!(cache.should_recompute("a.jpg", Some((100, 17))));
}

#[test]
fn untouched_file_is_not_recomputed_after_set() {
    let mut cache = local_cache();
    cache.set("a.jpg", entry(100, 17)).unwrap();
    assert!(!cache.should_recompute("a.jpg", Some((100, 17))));
}

#[test]
fn size_change_forces_recompute() {
    let mut cache = local_cache();
    cache.set("a.jpg", entry(100, 17)).unwrap();
    assert!(cache.should_recompute("a.jpg", Some((101, 17))));
}

#[test]
fn mtime_change_forces_recompute() {
    let mut cache = local_cache();
    cache.set("a.jpg", entry(100, 17)).unwrap();
    assert!(cache.should_recompute("a.jpg", Some((100, 18))));
}

#[test]
fn unreadable_metadata_forces_recompute() {
    let mut cache = local_cache();
    cache.set("a.jpg", entry(100, 17)).unwrap();
    assert!(cache.should_recompute("a.jpg", None));
}

#[test]
fn get_on_never_set_key_is_absent_locally() {
    let mut cache = local_cache();
    cache.set("a.jpg", entry(100, 17)).unwrap();
    assert_eq!(cache.get("other.jpg"), None);
}

#[test]
fn get_on_never_set_key_is_absent_on_unreachable_remote() {
    // 127.0.0.1:1 refuses connections, so every remote read degrades to a
    // miss rather than an error.
    let cache = EnhancedCache::new(
        CacheBackend::Redis(String::from("redis://127.0.0.1:1/")),
        None,
    )
    .unwrap();
    assert_eq!(cache.get("never-set"), None);
}

#[test]
fn invalid_remote_address_is_an_open_error() {
    let r = EnhancedCache::new(CacheBackend::Redis(String::from("not a redis url")), None);
    assert!(matches!(r, Err(StoreInitError::BackendUnreachable)));
}

#[test]
fn accepted_remote_address_opens_without_touching_the_network() {
    // The address parses, so open succeeds even though nothing listens.
    let r = EnhancedCache::new(CacheBackend::Redis(String::from("redis://127.0.0.1:1/")), None);
    assert!(r.is_ok());
}

#[test]
fn set_on_unreachable_remote_reports_write_failure() {
    let mut cache = EnhancedCache::new(
        CacheBackend::Redis(String::from("redis://127.0.0.1:1/")),
        None,
    )
    .unwrap();
    assert_eq!(
        cache.set("k", entry(1, 2)),
        Err(StoreWriteError::BackendWrite)
    );
}

#[test]
fn flush_on_remote_backend_has_nothing_to_persist() {
    let cache = EnhancedCache::new(
        CacheBackend::Redis(String::from("redis://127.0.0.1:1/")),
        None,
    )
    .unwrap();
    assert_eq!(cache.flush(), Ok(None));
}

#[test]
fn local_store_round_trips_through_flush_and_reload() {
    let mut cache = local_cache();
    let e = CacheEntry {
        semantic_hash: Some(SemanticHash {
            perceptual: Some(vec![1, 2, 3, 4, 5, 6, 7, 8]),
            content: 0xdead_beef,
        }),
        file_size: 2048,
        modified: 1000,
    };
    cache.set("photos/x.jpg", e.clone()).unwrap();
    cache.set("notes.txt", entry(5, 6)).unwrap();
    let text = cache.flush().unwrap().unwrap();
    let reloaded = EnhancedCache::new(
        CacheBackend::File(String::from("cache.json")),
        Some(text.as_str()),
    )
    .unwrap();
    assert_eq!(reloaded.get("photos/x.jpg"), Some(e));
    assert_eq!(reloaded.get("notes.txt"), Some(entry(5, 6)));
    assert_eq!(reloaded.get("missing"), None);
}

#[test]
fn backslash_keys_survive_the_round_trip() {
    let mut cache = local_cache();
    cache.set("dir\\file.jpg", entry(9, 9)).unwrap();
    let text = cache.flush().unwrap().unwrap();
    let reloaded =
        EnhancedCache::new(CacheBackend::File(String::from("c")), Some(text.as_str())).unwrap();
    assert_eq!(reloaded.get("dir\\file.jpg"), Some(entry(9, 9)));
}

#[test]
fn non_ascii_keys_survive_the_round_trip() {
    let mut cache = local_cache();
    cache.set("fotoğraf/übung-写真.jpg", entry(3, 4)).unwrap();
    let text = cache.flush().unwrap().unwrap();
    let reloaded =
        EnhancedCache::new(CacheBackend::File(String::from("c")), Some(text.as_str())).unwrap();
    assert_eq!(reloaded.get("fotoğraf/übung-写真.jpg"), Some(entry(3, 4)));
}

#[test]
fn keys_with_json_metacharacters_survive_the_round_trip() {
    let mut cache = local_cache();
    cache.set("a,b}{:[5].jpg", entry(7, 8)).unwrap();
    let text = cache.flush().unwrap().unwrap();
    let reloaded =
        EnhancedCache::new(CacheBackend::File(String::from("c")), Some(text.as_str())).unwrap();
    assert_eq!(reloaded.get("a,b}{:[5].jpg"), Some(entry(7, 8)));
    assert_eq!(reloaded.get("a,b"), None);
}

#[test]
fn quote_keys_are_refused_by_the_local_encoding() {
    let mut cache = local_cache();
    assert_eq!(
        cache.set("bad\"key", entry(1, 1)),
        Err(StoreWriteError::UnencodableKey)
    );
    assert_eq!(cache.get("bad\"key"), None);
}

#[test]
fn unparseable_store_file_yields_an_empty_store() {
    let reloaded =
        EnhancedCache::new(CacheBackend::File(String::from("c")), Some("not json at all"))
            .unwrap();
    assert_eq!(reloaded.get("anything"), None);
}

#[test]
fn overwriting_set_replaces_the_whole_record() {
    let mut cache = local_cache();
    cache.set("k", entry(1, 1)).unwrap();
    cache.set("k", entry(2, 3)).unwrap();
    assert_eq!(cache.get("k"), Some(entry(2, 3)));
}

#[test]
fn computed_jpeg_fingerprint_round_trips_through_the_store() {
    let img = image::GrayImage::from_raw(8, 8, vec![128; 64]).unwrap();
    let mut out = Cursor::new(Vec::new());
    image::DynamicImage::ImageLuma8(img)
        .write_to(&mut out, image::ImageFormat::Jpeg)
        .unwrap();
    let jpeg = out.into_inner();
    let hash = SemanticHash::compute(&jpeg, true, SemanticHashType::Average).unwrap();
    assert!(hash.perceptual.as_ref().is_some_and(|p| p.len() == 8));
    let record = CacheEntry {
        semantic_hash: Some(hash),
        file_size: 2048,
        modified: 1000,
    };
    let mut cache = local_cache();
    cache.set("pics/photo.jpg", record.clone()).unwrap();
    let text = cache.flush().unwrap().unwrap();
    let reloaded =
        EnhancedCache::new(CacheBackend::File(String::from("c")), Some(text.as_str())).unwrap();
    assert_eq!(reloaded.get("pics/photo.jpg"), Some(record));
}
