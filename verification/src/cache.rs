//! The read-through in-memory file cache.
//!
//! The cache is an authoritative mirror of the watched directory, not an
//! LRU: a path is present exactly when it has been read from disk since the
//! last invalidation for it. A cached file is an immutable `(mtime, bytes)`
//! pair handed out behind a shared reference; an update replaces the map
//! entry, never the file in place. One owning thread serializes fetches and
//! invalidations, so every operation here takes the whole state exclusively.

use vstd::prelude::*;
use std::sync::Arc;
use crate::event::InvalidationEvent;
use crate::path::bytes_eq;

verus! {

/// An immutable file snapshot: modification time (seconds) and contents.
pub struct CachedFile {
    pub mtime: u64,
    pub bytes: Vec<u8>,
}

/// A transient per-request I/O failure, by kind. `Other` carries the
/// reporting text of the underlying error.
#[derive(Clone, Debug)]
pub enum IoErrorKind {
    NotFound,
    PermissionDenied,
    Other(Vec<u8>),
}

/// Relies on std::sync::Arc::clone: the clone is the same shared value.
#[verifier::external_body]
fn share(f: &Arc<CachedFile>) -> (r: Arc<CachedFile>)
    ensures
        r == *f,
{
    Arc::clone(f)
}

/// The mathematical content of an association list: later entries win.
pub open spec fn assoc_map<V>(s: Seq<(Vec<u8>, V)>) -> Map<Seq<u8>, V>
    decreases s.len(),
{
    if s.len() == 0 {
        Map::empty()
    } else {
        assoc_map(s.drop_last()).insert(s.last().0@, s.last().1)
    }
}

/// No two entries share a key.
pub open spec fn unique_keys<V>(s: Seq<(Vec<u8>, V)>) -> bool {
    forall|i: int, j: int| 0 <= i < j < s.len() ==> s[i].0@ != s[j].0@
}

proof fn lemma_assoc_map_contains<V>(s: Seq<(Vec<u8>, V)>, k: Seq<u8>)
    ensures
        assoc_map(s).contains_key(k) <==> exists|i: int| 0 <= i < s.len() && s[i].0@ == k,
    decreases s.len(),
{
    if s.len() > 0 {
        lemma_assoc_map_contains(s.drop_last(), k);
        if s.last().0@ == k {
            assert(s[s.len() - 1].0@ == k);
        } else if assoc_map(s).contains_key(k) {
            let i = choose|i: int| 0 <= i < s.drop_last().len() && s.drop_last()[i].0@ == k;
            assert(s[i].0@ == k);
        } else {
            assert(forall|i: int| 0 <= i < s.len() - 1 ==> s.drop_last()[i].0@ == s[i].0@);
        }
    }
}

proof fn lemma_assoc_map_at<V>(s: Seq<(Vec<u8>, V)>, i: int)
    requires
        unique_keys(s),
        0 <= i < s.len(),
    ensures
        assoc_map(s).contains_key(s[i].0@),
        assoc_map(s)[s[i].0@] == s[i].1,
    decreases s.len(),
{
    lemma_assoc_map_contains(s, s[i].0@);
    if i == s.len() - 1 {
    } else {
        assert(forall|k: int| 0 <= k < s.len() - 1 ==> s.drop_last()[k] == s[k]);
        lemma_assoc_map_at(s.drop_last(), i);
        assert(s.last().0@ != s[i].0@);
    }
}

proof fn lemma_assoc_map_remove<V>(s: Seq<(Vec<u8>, V)>, i: int)
    requires
        unique_keys(s),
        0 <= i < s.len(),
    ensures
        unique_keys(s.remove(i)),
        assoc_map(s.remove(i)) == assoc_map(s).remove(s[i].0@),
    decreases s.len(),
{
    let k = s[i].0@;
    assert(forall|a: int| 0 <= a < i ==> s.remove(i)[a] == s[a]);
    assert(forall|a: int| i <= a < s.len() - 1 ==> s.remove(i)[a] == s[a + 1]);
    if i == s.len() - 1 {
        assert(s.remove(i) =~= s.drop_last());
        lemma_assoc_map_contains(s.drop_last(), k);
        assert(!assoc_map(s.drop_last()).contains_key(k));
        assert(assoc_map(s.drop_last()).remove(k) =~= assoc_map(s.drop_last()));
        assert(assoc_map(s).remove(k) =~= assoc_map(s.drop_last()));
    } else {
        lemma_assoc_map_remove(s.drop_last(), i);
        assert(s.remove(i).drop_last() =~= s.drop_last().remove(i));
        assert(s.remove(i).last() == s.last());
        assert(assoc_map(s.remove(i)) == assoc_map(s.drop_last().remove(i)).insert(
            s.last().0@,
            s.last().1,
        ));
        assert(assoc_map(s.remove(i)) == assoc_map(s.drop_last()).remove(k).insert(
            s.last().0@,
            s.last().1,
        ));
        assert(s.last().0@ != k);
        assert(assoc_map(s.drop_last()).remove(k).insert(s.last().0@, s.last().1) =~= assoc_map(
            s.drop_last(),
        ).insert(s.last().0@, s.last().1).remove(k));
    }
}

/// What an invalidation does to the cache's content. `Removed` drops the
/// entry; `Created` and `Modified` evict it so the next fetch re-reads (a
/// filesystem may report either for a write, so they act identically);
/// `Renamed` moves a cached entry from the old path to the new one, the
/// common atomic editor-save, and otherwise changes nothing.
pub open spec fn invalidated(
    m: Map<Seq<u8>, Arc<CachedFile>>,
    ev: InvalidationEvent,
) -> Map<Seq<u8>, Arc<CachedFile>> {
    match ev {
        InvalidationEvent::Removed(p) => m.remove(p@),
        InvalidationEvent::Created(p) => m.remove(p@),
        InvalidationEvent::Modified(p) => m.remove(p@),
        InvalidationEvent::Renamed(o, n) => if m.contains_key(o@) {
            m.remove(o@).insert(n@, m[o@])
        } else {
            m
        },
    }
}

/// The cache proper: path bytes to shared file snapshot, keys unique.
pub struct FileCacheState {
    store: Vec<(Vec<u8>, Arc<CachedFile>)>,
}

impl FileCacheState {
    /// The cache's content as a map.
    pub closed spec fn cache(self) -> Map<Seq<u8>, Arc<CachedFile>> {
        assoc_map(self.store@)
    }

    pub closed spec fn wf(self) -> bool {
        unique_keys(self.store@)
    }

    pub fn new() -> (c: FileCacheState)
        ensures
            c.wf(),
            c.cache() == Map::<Seq<u8>, Arc<CachedFile>>::empty(),
    {
        FileCacheState { store: Vec::new() }
    }

    /// Index of the entry for `path`, if any.
    fn find(&self, path: &Vec<u8>) -> (r: Option<usize>)
        requires
            self.wf(),
        ensures
            match r {
                Some(i) => i < self.store@.len() && self.store@[i as int].0@ == path@,
                None => !self.cache().contains_key(path@),
            },
    {
        let mut i: usize = 0;
        while i < self.store.len()
            invariant
                i <= self.store@.len(),
                forall|k: int| 0 <= k < i ==> self.store@[k].0@ != path@,
            decreases self.store@.len() - i,
        {
            if bytes_eq(&self.store[i].0, path) {
                return Some(i);
            }
            i = i + 1;
        }
        proof {
            lemma_assoc_map_contains(self.store@, path@);
        }
        None
    }

    /// A cache lookup: the hit path of a fetch. On a hit the shared
    /// snapshot itself is returned; the cache is untouched, so repeated
    /// fetches of an unchanged path hand out the same object.
    pub fn get(&self, path: &Vec<u8>) -> (r: Option<Arc<CachedFile>>)
        requires
            self.wf(),
        ensures
            match r {
                Some(f) => self.cache().contains_key(path@) && f == self.cache()[path@],
                None => !self.cache().contains_key(path@),
            },
    {
        match self.find(path) {
            Some(i) => {
                proof {
                    lemma_assoc_map_at(self.store@, i as int);
                }
                Some(share(&self.store[i].1))
            },
            None => None,
        }
    }

    /// Insert or replace the entry for `path`.
    pub fn insert(&mut self, path: Vec<u8>, file: Arc<CachedFile>)
        requires
            old(self).wf(),
        ensures
            final(self).wf(),
            final(self).cache() == old(self).cache().insert(path@, file),
    {
        self.remove(&path);
        let ghost mid = self.store@;
        proof {
            assert(!self.cache().contains_key(path@));
            lemma_assoc_map_contains(mid, path@);
            assert(forall|i: int| 0 <= i < mid.len() ==> mid[i].0@ != path@);
        }
        self.store.push((path, file));
        proof {
            assert(self.store@.drop_last() =~= mid);
            assert(self.store@.last() == (path, file));
            assert(forall|i: int| 0 <= i < mid.len() ==> self.store@[i] == mid[i]);
            assert(assoc_map(self.store@) == assoc_map(mid).insert(path@, file));
            assert(old(self).cache().remove(path@).insert(path@, file) =~= old(
                self,
            ).cache().insert(path@, file));
        }
    }

    /// Apply one invalidation from the fan-out chain to the cache content:
    /// exactly the transition [`invalidated`] describes.
    pub fn invalidate(&mut self, ev: &InvalidationEvent)
        requires
            old(self).wf(),
        ensures
            final(self).wf(),
            final(self).cache() == invalidated(old(self).cache(), *ev),
    {
        match ev {
            InvalidationEvent::Removed(p) => {
                self.remove(p);
            },
            InvalidationEvent::Created(p) => {
                self.remove(p);
            },
            InvalidationEvent::Modified(p) => {
                self.remove(p);
            },
            InvalidationEvent::Renamed(o, n) => {
                match self.get(o) {
                    Some(f) => {
                        self.remove(o);
                        self.insert(n.clone(), f);
                    },
                    None => {},
                }
            },
        }
    }

    /// Complete a read that a cache miss dispatched: a successful read is
    /// cached and handed back as the shared snapshot; a failed one is
    /// reported and leaves the cache unchanged, so errors are never cached.
    pub fn complete_read(&mut self, path: Vec<u8>, result: Result<CachedFile, IoErrorKind>) -> (r:
        Result<Arc<CachedFile>, IoErrorKind>)
        requires
            old(self).wf(),
        ensures
            final(self).wf(),
            match result {
                Ok(f) => r matches Ok(a) && a == f && final(self).cache() == old(
                    self,
                ).cache().insert(path@, a),
                Err(e) => r matches Err(e2) && e2 == e && final(self).cache() == old(self).cache(),
            },
    {
        match result {
            Ok(f) => {
                let a = Arc::new(f);
                self.insert(path, share(&a));
                Ok(a)
            },
            Err(e) => Err(e),
        }
    }

    /// Drop the entry for `path`, if present.
    pub fn remove(&mut self, path: &Vec<u8>)
        requires
            old(self).wf(),
        ensures
            final(self).wf(),
            final(self).cache() == old(self).cache().remove(path@),
    {
        let r = self.find(path);
        match r {
            Some(i) => {
                proof {
                    lemma_assoc_map_remove(self.store@, i as int);
                }
                self.store.remove(i);
            },
            None => {
                proof {
                    assert(self.cache().remove(path@) =~= self.cache());
                }
            },
        }
    }
}

/// The cache's event-loop step for one invalidation obligation: apply the
/// transition to the cache, then release the obligation, in that order, so
/// downstream consumers (the reload broadcaster) can only observe the event
/// after the cache's transition for it. A refused release — the next link's
/// queue is full — hands the obligation back; the caller retries the
/// release alone, and the transition is not repeated.
pub fn process_invalidation(
    cache: &mut FileCacheState,
    chain: &mut crate::bus::Chain,
    ob: crate::bus::Obligation,
) -> (r: Option<crate::bus::Obligation>)
    requires
        old(cache).wf(),
        old(chain).wf(),
        old(chain).valid_obligation(ob),
    ensures
        final(cache).wf(),
        final(chain).wf(),
        final(cache).cache() == invalidated(old(cache).cache(), ob.value()),
        final(chain).published() == old(chain).published(),
        r is None ==> final(chain).released(ob.link_of()) == old(chain).released(
            ob.link_of(),
        ).push(ob.value()),
        r matches Some(ob2) ==> ob2 == ob && *final(chain) == *old(chain),
{
    cache.invalidate(ob.get());
    chain.release(ob)
}

/// Cache correctness: once the cache has handled an invalidation touching a
/// path, that path is absent from the cache. A later fetch therefore cannot
/// be served the pre-invalidation entry: it either misses, which dispatches
/// a fresh read whose result [`FileCacheState::complete_read`] ties to the
/// reply, or hits an entry that only a later completed read can have put
/// there. A rename is an invalidation for its old path; renaming a path onto
/// itself keeps its entry, so that case is excluded here.
pub proof fn lemma_cache_correctness(
    m: Map<Seq<u8>, Arc<CachedFile>>,
    ev: InvalidationEvent,
    p: Seq<u8>,
)
    requires
        match ev {
            InvalidationEvent::Removed(q) => q@ == p,
            InvalidationEvent::Created(q) => q@ == p,
            InvalidationEvent::Modified(q) => q@ == p,
            InvalidationEvent::Renamed(o, n) => o@ == p && n@ != p,
        },
    ensures
        !invalidated(m, ev).contains_key(p),
{
}

/// Remove-then-recreate round trip: after `Removed(p)` and `Created(p)` have
/// been applied and a miss-read for `p` completes with bytes identical to
/// the originally cached ones, a fetch of `p` yields a snapshot bytewise
/// equal to the original.
pub proof fn lemma_remove_recreate(
    m: Map<Seq<u8>, Arc<CachedFile>>,
    rm: InvalidationEvent,
    cr: InvalidationEvent,
    p: Seq<u8>,
    reread: Arc<CachedFile>,
)
    requires
        rm matches InvalidationEvent::Removed(q) && q@ == p,
        cr matches InvalidationEvent::Created(q) && q@ == p,
        m.contains_key(p),
        reread.bytes@ == m[p].bytes@,
    ensures
        invalidated(invalidated(m, rm), cr).insert(p, reread).contains_key(p),
        invalidated(invalidated(m, rm), cr).insert(p, reread)[p].bytes@ == m[p].bytes@,
{
}

/// The per-path epoch table of reads in flight: which paths the cache has
/// dispatched a read for and not yet completed. An invalidation of such a
/// path advances its epoch, which orphans the read already under way.
pub open spec fn bump(m: Map<Seq<u8>, u64>, k: Seq<u8>) -> Map<Seq<u8>, u64> {
    if m.contains_key(k) {
        m.insert(
            k,
            if m[k] == u64::MAX {
                m[k]
            } else {
                ((m[k] + 1) as u64)
            },
        )
    } else {
        m
    }
}

/// The decision for one fetch under miss coalescing.
pub enum FetchDecision {
    /// The path is cached: reply at once with the shared snapshot.
    Serve(Arc<CachedFile>),
    /// A read for this path is already under way: park the requester on
    /// its reply instead of issuing a second read.
    Attach,
    /// Nothing cached and nothing in flight: issue a read carrying this
    /// epoch.
    Dispatch(u64),
}

/// What becomes of a completed read under coalescing.
pub enum ReadDone {
    /// The read was current: reply to every parked requester, and on
    /// success the snapshot is now cached.
    Reply(Result<Arc<CachedFile>, IoErrorKind>),
    /// An invalidation overtook the read: the result is dropped, not
    /// cached, and nobody is answered with it — the re-issued read will.
    Stale,
}

/// The cache with per-path coalescing of concurrent misses: alongside the
/// cached files it tracks, per path, one read in flight with an epoch. A
/// second miss attaches to the first read instead of dispatching again; an
/// invalidation advances the epoch so the overtaken read's result is
/// recognizably stale when it arrives. Epochs saturate at the integer
/// limit.
pub struct CoalescingCache {
    files: FileCacheState,
    pending: Vec<(Vec<u8>, u64)>,
}

impl CoalescingCache {
    /// The cached files.
    pub closed spec fn cache(self) -> Map<Seq<u8>, Arc<CachedFile>> {
        self.files.cache()
    }

    /// The reads in flight: path to current epoch.
    pub closed spec fn pending_map(self) -> Map<Seq<u8>, u64> {
        assoc_map(self.pending@)
    }

    pub closed spec fn wf(self) -> bool {
        self.files.wf() && unique_keys(self.pending@)
    }

    pub fn new() -> (c: CoalescingCache)
        ensures
            c.wf(),
            c.cache() == Map::<Seq<u8>, Arc<CachedFile>>::empty(),
            c.pending_map() == Map::<Seq<u8>, u64>::empty(),
    {
        CoalescingCache { files: FileCacheState::new(), pending: Vec::new() }
    }

    /// Index of the in-flight entry for `path`, if any.
    fn pending_find(&self, path: &Vec<u8>) -> (r: Option<usize>)
        requires
            self.wf(),
        ensures
            match r {
                Some(i) => i < self.pending@.len() && self.pending@[i as int].0@ == path@
                    && self.pending_map().contains_key(path@) && self.pending_map()[path@]
                    == self.pending@[i as int].1,
                None => !self.pending_map().contains_key(path@),
            },
    {
        let mut i: usize = 0;
        while i < self.pending.len()
            invariant
                self.wf(),
                i <= self.pending@.len(),
                forall|k: int| 0 <= k < i ==> self.pending@[k].0@ != path@,
            decreases self.pending@.len() - i,
        {
            if bytes_eq(&self.pending[i].0, path) {
                proof {
                    lemma_assoc_map_at(self.pending@, i as int);
                }
                return Some(i);
            }
            i = i + 1;
        }
        proof {
            lemma_assoc_map_contains(self.pending@, path@);
        }
        None
    }

    /// Record `path` as in flight at `epoch`, replacing an older entry.
    fn pending_set(&mut self, path: Vec<u8>, epoch: u64)
        requires
            old(self).wf(),
        ensures
            final(self).wf(),
            final(self).cache() == old(self).cache(),
            final(self).pending_map() == old(self).pending_map().insert(path@, epoch),
    {
        self.pending_take(&path);
        let ghost mid = self.pending@;
        proof {
            assert(!self.pending_map().contains_key(path@));
            lemma_assoc_map_contains(mid, path@);
            assert(forall|i: int| 0 <= i < mid.len() ==> mid[i].0@ != path@);
        }
        self.pending.push((path, epoch));
        proof {
            assert(self.pending@.drop_last() =~= mid);
            assert(forall|i: int| 0 <= i < mid.len() ==> self.pending@[i] == mid[i]);
            assert(assoc_map(self.pending@) == assoc_map(mid).insert(path@, epoch));
            assert(old(self).pending_map().remove(path@).insert(path@, epoch) =~= old(
                self,
            ).pending_map().insert(path@, epoch));
        }
    }

    /// Clear the in-flight entry for `path`, handing back its epoch.
    fn pending_take(&mut self, path: &Vec<u8>) -> (r: Option<u64>)
        requires
            old(self).wf(),
        ensures
            final(self).wf(),
            final(self).cache() == old(self).cache(),
            match r {
                Some(e) => old(self).pending_map().contains_key(path@) && e == old(
                    self,
                ).pending_map()[path@] && final(self).pending_map() == old(
                    self,
                ).pending_map().remove(path@),
                None => !old(self).pending_map().contains_key(path@) && final(self).pending_map()
                    == old(self).pending_map(),
            },
    {
        match self.pending_find(path) {
            Some(i) => {
                proof {
                    lemma_assoc_map_remove(self.pending@, i as int);
                }
                let (_, e) = self.pending.remove(i);
                Some(e)
            },
            None => {
                proof {
                    assert(self.pending_map().remove(path@) =~= self.pending_map());
                }
                None
            },
        }
    }

    /// One fetch: serve a cached path at once; attach to a read already in
    /// flight rather than dispatch a second one; otherwise start the one
    /// read, at epoch zero.
    pub fn fetch(&mut self, path: &Vec<u8>) -> (r: FetchDecision)
        requires
            old(self).wf(),
        ensures
            final(self).wf(),
            final(self).cache() == old(self).cache(),
            match r {
                FetchDecision::Serve(f) => old(self).cache().contains_key(path@) && f == old(
                    self,
                ).cache()[path@] && final(self).pending_map() == old(self).pending_map(),
                FetchDecision::Attach => !old(self).cache().contains_key(path@) && old(
                    self,
                ).pending_map().contains_key(path@) && final(self).pending_map() == old(
                    self,
                ).pending_map(),
                FetchDecision::Dispatch(e) => !old(self).cache().contains_key(path@) && !old(
                    self,
                ).pending_map().contains_key(path@) && e == 0 && final(self).pending_map() == old(
                    self,
                ).pending_map().insert(path@, 0),
            },
    {
        if let Some(f) = self.files.get(path) {
            return FetchDecision::Serve(f);
        }
        if self.pending_find(path).is_some() {
            return FetchDecision::Attach;
        }
        self.pending_set(path.clone(), 0);
        FetchDecision::Dispatch(0)
    }

    /// Advance the epoch of one possibly in-flight path, returning the
    /// re-issued read, if one is owed.
    fn bump_pending(&mut self, path: &Vec<u8>) -> (r: Option<(Vec<u8>, u64)>)
        requires
            old(self).wf(),
        ensures
            final(self).wf(),
            final(self).cache() == old(self).cache(),
            final(self).pending_map() == bump(old(self).pending_map(), path@),
            match r {
                Some(p) => old(self).pending_map().contains_key(path@) && p.0@ == path@ && p.1
                    == final(self).pending_map()[path@],
                None => !old(self).pending_map().contains_key(path@),
            },
    {
        match self.pending_take(path) {
            Some(e) => {
                let e2 = if e == u64::MAX {
                    e
                } else {
                    e + 1
                };
                self.pending_set(path.clone(), e2);
                proof {
                    assert(old(self).pending_map().remove(path@).insert(path@, e2) =~= bump(
                        old(self).pending_map(),
                        path@,
                    ));
                }
                Some((path.clone(), e2))
            },
            None => None,
        }
    }

    /// Apply one invalidation: evict as [`invalidated`] prescribes, and
    /// advance the epoch of every touched path with a read in flight. The
    /// returned list holds the reads to re-issue — one per touched
    /// in-flight path, at its new epoch — so the parked requesters are
    /// answered with post-invalidation bytes, never the overtaken read's.
    pub fn invalidate(&mut self, ev: &InvalidationEvent) -> (redo: Vec<(Vec<u8>, u64)>)
        requires
            old(self).wf(),
        ensures
            final(self).wf(),
            final(self).cache() == invalidated(old(self).cache(), *ev),
            match *ev {
                InvalidationEvent::Removed(p) => final(self).pending_map() == bump(
                    old(self).pending_map(),
                    p@,
                ),
                InvalidationEvent::Created(p) => final(self).pending_map() == bump(
                    old(self).pending_map(),
                    p@,
                ),
                InvalidationEvent::Modified(p) => final(self).pending_map() == bump(
                    old(self).pending_map(),
                    p@,
                ),
                InvalidationEvent::Renamed(o, n) => final(self).pending_map() == bump(
                    bump(old(self).pending_map(), o@),
                    n@,
                ),
            },
            forall|k: int|
                0 <= k < redo@.len() ==> final(self).pending_map().contains_key(
                    #[trigger] redo@[k].0@,
                ) && redo@[k].1 == final(self).pending_map()[redo@[k].0@],
    {
        self.files.invalidate(ev);
        let mut redo: Vec<(Vec<u8>, u64)> = Vec::new();
        match ev {
            InvalidationEvent::Removed(p) => {
                if let Some(r) = self.bump_pending(p) {
                    redo.push(r);
                }
            },
            InvalidationEvent::Created(p) => {
                if let Some(r) = self.bump_pending(p) {
                    redo.push(r);
                }
            },
            InvalidationEvent::Modified(p) => {
                if let Some(r) = self.bump_pending(p) {
                    redo.push(r);
                }
            },
            InvalidationEvent::Renamed(o, n) => {
                // renaming a path onto itself advances its epoch twice;
                // only the final epoch is worth re-reading
                let same = bytes_eq(o, n);
                let ghost m0 = self.pending_map();
                let first = self.bump_pending(o);
                let ghost m1 = self.pending_map();
                let second = self.bump_pending(n);
                if let Some(r) = first {
                    if !same {
                        proof {
                            assert(self.pending_map() == bump(m1, n@));
                            assert(m1.contains_key(r.0@) && m1[r.0@] == r.1);
                            assert(self.pending_map().contains_key(r.0@)
                                && self.pending_map()[r.0@] == r.1);
                        }
                        redo.push(r);
                    }
                }
                if let Some(r) = second {
                    redo.push(r);
                }
            },
        }
        redo
    }

    /// Complete a read. A current read answers the parked requesters and,
    /// on success, caches the snapshot. A read overtaken by an
    /// invalidation — its epoch no longer the path's — is dropped whole:
    /// nothing is cached and nobody is answered with it.
    pub fn read_done(&mut self, path: Vec<u8>, epoch: u64, result: Result<
        CachedFile,
        IoErrorKind,
    >) -> (r: ReadDone)
        requires
            old(self).wf(),
        ensures
            final(self).wf(),
            if old(self).pending_map().contains_key(path@) && old(self).pending_map()[path@]
                == epoch {
                &&& final(self).pending_map() == old(self).pending_map().remove(path@)
                &&& match result {
                    Ok(f) => r matches ReadDone::Reply(out) && out matches Ok(a) && a == f
                        && final(self).cache() == old(self).cache().insert(path@, a),
                    Err(e) => r matches ReadDone::Reply(out) && out matches Err(e2) && e2 == e
                        && final(self).cache() == old(self).cache(),
                }
            } else {
                &&& final(self).pending_map() == old(self).pending_map()
                &&& final(self).cache() == old(self).cache()
                &&& r is Stale
            },
    {
        let current = match self.pending_find(&path) {
            Some(i) => self.pending[i].1 == epoch,
            None => false,
        };
        if !current {
            return ReadDone::Stale;
        }
        self.pending_take(&path);
        match result {
            Ok(f) => {
                let a = Arc::new(f);
                self.files.insert(path, share(&a));
                ReadDone::Reply(Ok(a))
            },
            Err(e) => ReadDone::Reply(Err(e)),
        }
    }
}

/// A read overtaken by an invalidation can never complete: advancing a
/// path's epoch makes the epoch the read carries differ from the table's,
/// and [`CoalescingCache::read_done`] drops a read whose epoch differs.
/// Together with eviction this is what keeps pre-invalidation bytes out of
/// every reply issued after the invalidation.
pub proof fn lemma_stale_read_dropped(pending: Map<Seq<u8>, u64>, p: Seq<u8>, e: u64)
    requires
        pending.contains_key(p),
        pending[p] == e,
        e < u64::MAX,
    ensures
        bump(pending, p)[p] != e,
{
}

} // verus!
