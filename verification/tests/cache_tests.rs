use std::sync::Arc;

use liveserve::cache::{CachedFile, FileCacheState, IoErrorKind};
use liveserve::event::InvalidationEvent;
use liveserve::http::{respond, HttpMethod};

fn b(s: &str) -> Vec<u8> {
    s.as_bytes().to_vec()
}

#[test]
fn cold_fetch_then_hit() {
    // cold fetch: miss, read completes, 200 with the exact bytes
    let mut cache = FileCacheState::new();
    let path = b("/srv/index.html");
    assert!(cache.get(&path).is_none());

    let read = CachedFile { mtime: 1000, bytes: b("hello world\n") };
    let served = cache.complete_read(path.clone(), Ok(read)).unwrap();
    let resp = respond(HttpMethod::Get, Ok(Arc::clone(&served)));
    assert_eq!(resp.status, 200);
    assert_eq!(resp.content_length, Some(12));
    assert_eq!(resp.last_modified, Some(1000));
    assert_eq!(resp.body, b("hello world\n"));

    // second fetch: a hit with the same bytes, no new read needed
    let hit = cache.get(&path).unwrap();
    assert_eq!(hit.bytes, b("hello world\n"));
}

#[test]
fn repeated_fetch_same_object() {
    // an unchanged path is served the same shared snapshot, not a copy
    let mut cache = FileCacheState::new();
    let path = b("/srv/app.css");
    cache
        .complete_read(path.clone(), Ok(CachedFile { mtime: 5, bytes: b("body{}") }))
        .unwrap();
    let first = cache.get(&path).unwrap();
    let second = cache.get(&path).unwrap();
    assert!(Arc::ptr_eq(&first, &second));
}

#[test]
fn modify_then_fetch() {
    // a write evicts; the next fetch re-reads and serves the new bytes
    let mut cache = FileCacheState::new();
    let path = b("/srv/index.html");
    cache
        .complete_read(path.clone(), Ok(CachedFile { mtime: 1000, bytes: b("hello world\n") }))
        .unwrap();

    cache.invalidate(&InvalidationEvent::Modified(path.clone()));
    assert!(cache.get(&path).is_none());

    let served = cache
        .complete_read(path.clone(), Ok(CachedFile { mtime: 2000, bytes: b("HELLO WORLD!\n") }))
        .unwrap();
    let resp = respond(HttpMethod::Get, Ok(served));
    assert_eq!(resp.status, 200);
    assert_eq!(resp.content_length, Some(13));
    assert_eq!(resp.body, b("HELLO WORLD!\n"));
}

#[test]
fn failed_read_not_cached() {
    // a missing file is reported and leaves the cache unchanged
    let mut cache = FileCacheState::new();
    let path = b("/srv/missing.html");
    let r = cache.complete_read(path.clone(), Err(IoErrorKind::NotFound));
    assert!(matches!(r, Err(IoErrorKind::NotFound)));
    assert!(cache.get(&path).is_none());
}

#[test]
fn removed_then_recreated_same_bytes() {
    // remove + create with identical bytes round-trips the fetch bytewise
    let mut cache = FileCacheState::new();
    let path = b("/srv/a.txt");
    cache
        .complete_read(path.clone(), Ok(CachedFile { mtime: 10, bytes: b("contents") }))
        .unwrap();
    let original = cache.get(&path).unwrap();

    cache.invalidate(&InvalidationEvent::Removed(path.clone()));
    assert!(cache.get(&path).is_none());
    cache.invalidate(&InvalidationEvent::Created(path.clone()));
    assert!(cache.get(&path).is_none());

    let reread = cache
        .complete_read(path.clone(), Ok(CachedFile { mtime: 11, bytes: b("contents") }))
        .unwrap();
    assert_eq!(reread.bytes, original.bytes);
}

#[test]
fn rename_moves_cached_entry() {
    let mut cache = FileCacheState::new();
    let old = b("/srv/old.txt");
    let new = b("/srv/new.txt");
    cache
        .complete_read(old.clone(), Ok(CachedFile { mtime: 7, bytes: b("data") }))
        .unwrap();

    cache.invalidate(&InvalidationEvent::Renamed(old.clone(), new.clone()));
    assert!(cache.get(&old).is_none());
    let moved = cache.get(&new).unwrap();
    assert_eq!(moved.bytes, b("data"));
}

#[test]
fn rename_of_uncached_path_changes_nothing() {
    let mut cache = FileCacheState::new();
    let bystander = b("/srv/other.txt");
    cache
        .complete_read(bystander.clone(), Ok(CachedFile { mtime: 1, bytes: b("x") }))
        .unwrap();

    cache.invalidate(&InvalidationEvent::Renamed(b("/srv/a"), b("/srv/b")));
    assert!(cache.get(&b("/srv/a")).is_none());
    assert!(cache.get(&b("/srv/b")).is_none());
    assert!(cache.get(&bystander).is_some());
}

#[test]
fn insert_replaces_entry() {
    let mut cache = FileCacheState::new();
    let path = b("/srv/f");
    cache.insert(path.clone(), Arc::new(CachedFile { mtime: 1, bytes: b("one") }));
    cache.insert(path.clone(), Arc::new(CachedFile { mtime: 2, bytes: b("two") }));
    let got = cache.get(&path).unwrap();
    assert_eq!(got.mtime, 2);
    assert_eq!(got.bytes, b("two"));
}
