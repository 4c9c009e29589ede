use liveserve::bus::Chain;
use liveserve::cache::{CachedFile, FileCacheState};
use liveserve::event::InvalidationEvent;
use liveserve::cache::process_invalidation;
use liveserve::reload::{event_triggers_reload, reload_message};

fn b(s: &str) -> Vec<u8> {
    s.as_bytes().to_vec()
}

fn path_of(ev: &InvalidationEvent) -> &Vec<u8> {
    match ev {
        InvalidationEvent::Created(p)
        | InvalidationEvent::Modified(p)
        | InvalidationEvent::Removed(p) => p,
        InvalidationEvent::Renamed(_, p) => p,
    }
}

#[test]
fn events_fan_out_in_order_to_both_links() {
    let mut chain = Chain::new(2, 16);
    assert!(chain.try_publish(InvalidationEvent::Modified(b("/a"))));
    assert!(chain.try_publish(InvalidationEvent::Removed(b("/b"))));

    // head link sees both, in publication order
    let ob = chain.receive(0).unwrap();
    assert_eq!(path_of(ob.get()), &b("/a"));
    assert!(chain.release(ob).is_none());
    let ob = chain.receive(0).unwrap();
    assert_eq!(path_of(ob.get()), &b("/b"));
    assert!(chain.release(ob).is_none());

    // second link sees the same events, in the same order
    let ob = chain.receive(1).unwrap();
    assert_eq!(path_of(ob.get()), &b("/a"));
    assert!(chain.release(ob).is_none());
    let ob = chain.receive(1).unwrap();
    assert_eq!(path_of(ob.get()), &b("/b"));
    assert!(chain.release(ob).is_none());
    assert!(chain.receive(1).is_none());
}

#[test]
fn downstream_sees_nothing_before_release() {
    let mut chain = Chain::new(2, 16);
    assert!(chain.try_publish(InvalidationEvent::Modified(b("/x"))));
    let ob = chain.receive(0).unwrap();
    // the event is held by link 0; link 1 must not observe it yet
    assert!(chain.receive(1).is_none());
    assert!(chain.release(ob).is_none());
    assert!(chain.receive(1).is_some());
}

#[test]
fn publisher_blocked_at_capacity() {
    let mut chain = Chain::new(1, 2);
    assert!(chain.try_publish(InvalidationEvent::Modified(b("/1"))));
    assert!(chain.try_publish(InvalidationEvent::Modified(b("/2"))));
    // the head queue is full: the publisher is two events ahead
    assert!(!chain.try_publish(InvalidationEvent::Modified(b("/3"))));
    // consuming one frees one slot
    let ob = chain.receive(0).unwrap();
    assert!(chain.release(ob).is_none());
    assert!(chain.try_publish(InvalidationEvent::Modified(b("/3"))));
}

#[test]
fn release_blocked_when_next_queue_full() {
    let mut chain = Chain::new(2, 1);
    assert!(chain.try_publish(InvalidationEvent::Modified(b("/1"))));
    let ob = chain.receive(0).unwrap();
    assert!(chain.release(ob).is_none());
    // link 1's queue now holds /1; /2 can come to link 0 but not move on
    assert!(chain.try_publish(InvalidationEvent::Modified(b("/2"))));
    let ob = chain.receive(0).unwrap();
    let held = chain.release(ob).expect("release must be refused while the next queue is full");
    // after link 1 drains, the retried release goes through
    let downstream = chain.receive(1).unwrap();
    assert!(chain.release(downstream).is_none());
    assert!(chain.release(held).is_none());
}

#[test]
fn reload_notice_follows_cache_eviction() {
    // the cache is the head link, the broadcaster the second: a trigger
    // event reaches the broadcaster only after the cache evicted the path
    let mut chain = Chain::new(2, 16);
    let mut cache = FileCacheState::new();
    let path = b("client/js/main.js");
    cache
        .complete_read(path.clone(), Ok(CachedFile { mtime: 1, bytes: b("old") }))
        .unwrap();

    assert!(chain.try_publish(InvalidationEvent::Modified(path.clone())));
    let ob = chain.receive(0).unwrap();
    assert!(process_invalidation(&mut cache, &mut chain, ob).is_none());
    assert!(cache.get(&path).is_none(), "eviction precedes the broadcast");

    let ob = chain.receive(1).unwrap();
    let trigger = b("main.js");
    let mut notices = 0;
    if event_triggers_reload(ob.get(), &trigger) {
        notices += 1;
    }
    assert!(chain.release(ob).is_none());
    assert_eq!(notices, 1);
    assert_eq!(reload_message(), "Reload");

    // an unrelated path triggers nothing
    assert!(chain.try_publish(InvalidationEvent::Modified(b("client/style.css"))));
    let ob = chain.receive(0).unwrap();
    assert!(process_invalidation(&mut cache, &mut chain, ob).is_none());
    let ob = chain.receive(1).unwrap();
    assert!(!event_triggers_reload(ob.get(), &trigger));
    assert!(chain.release(ob).is_none());
}
