use liveserve::cache::{CachedFile, CoalescingCache, FetchDecision, IoErrorKind, ReadDone};
use liveserve::event::InvalidationEvent;

fn b(s: &str) -> Vec<u8> {
    s.as_bytes().to_vec()
}

#[test]
fn concurrent_misses_coalesce_to_one_dispatch() {
    // a hundred simultaneous fetches of one uncached path cause exactly
    // one read; everyone else attaches to it
    let mut cache = CoalescingCache::new();
    let path = b("/srv/big.bin");
    let mut dispatches = 0;
    let mut attaches = 0;
    let mut epoch = 0;
    for _ in 0..100 {
        match cache.fetch(&path) {
            FetchDecision::Dispatch(e) => {
                dispatches += 1;
                epoch = e;
            }
            FetchDecision::Attach => attaches += 1,
            FetchDecision::Serve(_) => panic!("nothing is cached yet"),
        }
    }
    assert_eq!(dispatches, 1);
    assert_eq!(attaches, 99);

    // the one read completes: it is current, the snapshot is cached
    let done = cache.read_done(path.clone(), epoch, Ok(CachedFile { mtime: 3, bytes: b("blob") }));
    match done {
        ReadDone::Reply(Ok(f)) => assert_eq!(f.bytes, b("blob")),
        _ => panic!("the current read must be replied"),
    }
    // and every later fetch is a plain hit
    match cache.fetch(&path) {
        FetchDecision::Serve(f) => assert_eq!(f.bytes, b("blob")),
        _ => panic!("expected a hit"),
    }
}

#[test]
fn overtaken_read_is_dropped() {
    // an invalidation lands while the read is in flight: the old read's
    // result must not be cached nor served; the re-issued read wins
    let mut cache = CoalescingCache::new();
    let path = b("/srv/index.html");
    let old_epoch = match cache.fetch(&path) {
        FetchDecision::Dispatch(e) => e,
        _ => panic!("first fetch must dispatch"),
    };

    let redo = cache.invalidate(&InvalidationEvent::Modified(path.clone()));
    assert_eq!(redo.len(), 1);
    assert_eq!(redo[0].0, path);
    let new_epoch = redo[0].1;
    assert_ne!(new_epoch, old_epoch);

    // the overtaken read arrives with pre-invalidation bytes: dropped
    let done = cache.read_done(path.clone(), old_epoch, Ok(CachedFile { mtime: 1, bytes: b("old") }));
    assert!(matches!(done, ReadDone::Stale));
    assert!(matches!(cache.fetch(&path), FetchDecision::Attach));

    // the re-issued read arrives with the new bytes: served and cached
    let done = cache.read_done(path.clone(), new_epoch, Ok(CachedFile { mtime: 2, bytes: b("new") }));
    match done {
        ReadDone::Reply(Ok(f)) => assert_eq!(f.bytes, b("new")),
        _ => panic!("the re-issued read must be replied"),
    }
    match cache.fetch(&path) {
        FetchDecision::Serve(f) => assert_eq!(f.bytes, b("new")),
        _ => panic!("expected a hit with the new bytes"),
    }
}

#[test]
fn failed_read_answers_and_caches_nothing() {
    let mut cache = CoalescingCache::new();
    let path = b("/srv/missing.html");
    let epoch = match cache.fetch(&path) {
        FetchDecision::Dispatch(e) => e,
        _ => panic!("first fetch must dispatch"),
    };
    let done = cache.read_done(path.clone(), epoch, Err(IoErrorKind::NotFound));
    assert!(matches!(done, ReadDone::Reply(Err(IoErrorKind::NotFound))));
    // the error was not cached: the next fetch starts a fresh read
    assert!(matches!(cache.fetch(&path), FetchDecision::Dispatch(_)));
}

#[test]
fn invalidation_without_read_in_flight_reissues_nothing() {
    let mut cache = CoalescingCache::new();
    let redo = cache.invalidate(&InvalidationEvent::Removed(b("/srv/idle.txt")));
    assert!(redo.is_empty());
}

#[test]
fn rename_reissues_reads_for_both_ends() {
    let mut cache = CoalescingCache::new();
    let old = b("/srv/a.txt");
    let new = b("/srv/b.txt");
    assert!(matches!(cache.fetch(&old), FetchDecision::Dispatch(_)));
    assert!(matches!(cache.fetch(&new), FetchDecision::Dispatch(_)));
    let redo = cache.invalidate(&InvalidationEvent::Renamed(old.clone(), new.clone()));
    assert_eq!(redo.len(), 2);
    assert_eq!(redo[0].0, old);
    assert_eq!(redo[1].0, new);
}
