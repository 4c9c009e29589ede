//! The invalidation fan-out chain ("daisy chain").
//!
//! Consumers stand in a line. The head consumer sees each published event
//! first; only when it *releases* the event does the event move on to the
//! next link's queue. Receiving hands back an obligation: the event together
//! with the duty to forward it. This gives every consumer a scoped chance to
//! act on an event before anyone downstream observes it, which the cache
//! needs so a reload notice never overtakes the eviction it announces.
//!
//! Every queue is bounded by one capacity: a publisher can run at most that
//! many events ahead of the head consumer before being refused, and each
//! link backpressures the one before it the same way.
//!
//! The structure here is the chain's logic in one owner's hands; the
//! application drives one link per thread and blocks by retrying a refused
//! publish or release.

use vstd::prelude::*;
use crate::event::InvalidationEvent;

verus! {

proof fn lemma_put_back<T>(s: Seq<T>, i: int, v: T)
    requires
        0 <= i < s.len(),
    ensures
        s.remove(i).insert(i, v) =~= s.update(i, v),
{
    let lhs = s.remove(i).insert(i, v);
    let rhs = s.update(i, v);
    assert(lhs.len() == rhs.len());
    assert forall|k: int| 0 <= k < rhs.len() implies lhs[k] == rhs[k] by {
        if k < i {
            assert(s.remove(i)[k] == s[k]);
        } else if k > i {
            assert(s.remove(i)[k - 1] == s[k]);
        }
    }
}

/// Link `i` has the same delivery history and obligation slot in `post` as
/// in `pre`.
pub open spec fn same_slot(pre: Chain, post: Chain, i: int) -> bool {
    post.taken(i) == pre.taken(i) && post.pending(i) == pre.pending(i)
}

/// An event received from the chain, carrying the duty to release it so the
/// next link can observe it. Dropping it without release stalls the chain
/// and is diagnosed by the application, never silently tolerated.
pub struct Obligation {
    event: InvalidationEvent,
    link: usize,
}

impl Obligation {
    /// The event this obligation carries.
    pub closed spec fn value(self) -> InvalidationEvent {
        self.event
    }

    /// The link that received the event and owes the release.
    pub closed spec fn link_of(self) -> int {
        self.link as int
    }

    /// Read the event in order to act on it before releasing.
    pub fn get(&self) -> (r: &InvalidationEvent)
        ensures
            *r == self.value(),
    {
        &self.event
    }
}

/// The fan-out chain state: one bounded queue and one obligation slot per
/// link, with the publication and delivery histories alongside.
pub struct Chain {
    capacity: usize,
    queues: Vec<Vec<InvalidationEvent>>,
    pending: Vec<bool>,
    published: Ghost<Seq<InvalidationEvent>>,
    taken: Ghost<Seq<Seq<InvalidationEvent>>>,
}

impl Chain {
    /// The number of links (consumers).
    pub closed spec fn n_links(self) -> int {
        self.queues@.len() as int
    }

    /// The bound every queue obeys.
    pub closed spec fn capacity(self) -> int {
        self.capacity as int
    }

    /// Everything ever published, in order.
    pub closed spec fn published(self) -> Seq<InvalidationEvent> {
        self.published@
    }

    /// Everything link `i` has received, in order, including an event it
    /// still holds as an unreleased obligation.
    pub closed spec fn taken(self, i: int) -> Seq<InvalidationEvent> {
        self.taken@[i]
    }

    /// The events waiting for link `i`, front first.
    pub closed spec fn queue(self, i: int) -> Seq<InvalidationEvent> {
        self.queues@[i]@
    }

    /// Whether link `i` holds an unreleased obligation.
    pub closed spec fn pending(self, i: int) -> bool {
        self.pending@[i]
    }

    /// Everything link `i` has released downstream, in order: all it has
    /// taken except an obligation it still holds.
    pub open spec fn released(self, i: int) -> Seq<InvalidationEvent> {
        if self.pending(i) {
            self.taken(i).drop_last()
        } else {
            self.taken(i)
        }
    }

    /// The obligation is the one the chain is waiting on link `ob.link_of()`
    /// to release.
    pub closed spec fn valid_obligation(self, ob: Obligation) -> bool {
        &&& 0 <= ob.link_of() < self.n_links()
        &&& self.pending(ob.link_of())
        &&& self.taken(ob.link_of()).len() >= 1
        &&& ob.value() == self.taken(ob.link_of()).last()
    }

    pub closed spec fn wf(self) -> bool {
        &&& self.n_links() >= 1
        &&& self.capacity() >= 1
        &&& self.pending@.len() == self.n_links()
        &&& self.taken@.len() == self.n_links()
        &&& forall|i: int| 0 <= i < self.n_links() ==> #[trigger] self.queue(i).len() <= self.capacity()
        &&& forall|i: int|
            0 <= i < self.n_links() ==> (#[trigger] self.pending(i) ==> self.taken(i).len() >= 1)
        &&& self.taken(0) + self.queue(0) == self.published()
        &&& forall|i: int|
            1 <= i < self.n_links() ==> #[trigger] self.taken(i) + self.queue(i) == self.released(
                i - 1,
            )
    }

    /// Build a chain of `n_links` consumers with `capacity`-bounded queues.
    pub fn new(n_links: usize, capacity: usize) -> (c: Chain)
        requires
            n_links >= 1,
            capacity >= 1,
        ensures
            c.wf(),
            c.n_links() == n_links,
            c.capacity() == capacity,
            c.published() == Seq::<InvalidationEvent>::empty(),
            forall|i: int|
                0 <= i < n_links ==> #[trigger] c.taken(i) == Seq::<InvalidationEvent>::empty()
                    && !c.pending(i) && c.queue(i) == Seq::<InvalidationEvent>::empty(),
    {
        let mut queues: Vec<Vec<InvalidationEvent>> = Vec::new();
        let mut pending: Vec<bool> = Vec::new();
        let mut i: usize = 0;
        while i < n_links
            invariant
                i <= n_links,
                queues@.len() == i,
                pending@.len() == i,
                forall|k: int| 0 <= k < i ==> #[trigger] queues@[k]@.len() == 0,
                forall|k: int| 0 <= k < i ==> !(#[trigger] pending@[k]),
            decreases n_links - i,
        {
            queues.push(Vec::new());
            pending.push(false);
            i = i + 1;
        }
        let ghost empty_taken = Seq::<Seq<InvalidationEvent>>::new(
            n_links as nat,
            |k: int| Seq::<InvalidationEvent>::empty(),
        );
        let c = Chain {
            capacity,
            queues,
            pending,
            published: Ghost(Seq::empty()),
            taken: Ghost(empty_taken),
        };
        proof {
            assert(c.taken(0) + c.queue(0) =~= c.published());
            assert(forall|k: int|
                1 <= k < c.n_links() ==> #[trigger] c.taken(k) + c.queue(k) =~= c.released(k - 1));
        }
        c
    }

    /// The number of links, for callers that index them.
    pub fn links(&self) -> (r: usize)
        ensures
            r == self.n_links(),
    {
        self.queues.len()
    }

    /// Whether a link still owes a release; while it does, it must not
    /// receive again.
    pub fn is_pending(&self, link: usize) -> (r: bool)
        requires
            self.wf(),
            link < self.n_links(),
        ensures
            r == self.pending(link as int),
    {
        self.pending[link]
    }

    /// Offer an event to the head of the chain. Refused exactly when the
    /// head queue is full, i.e. when the publisher is a full capacity ahead
    /// of the head consumer; the publisher then blocks and retries.
    pub fn try_publish(&mut self, e: InvalidationEvent) -> (ok: bool)
        requires
            old(self).wf(),
        ensures
            final(self).wf(),
            final(self).n_links() == old(self).n_links(),
            final(self).capacity() == old(self).capacity(),
            forall|i: int|
                0 <= i < old(self).n_links() ==> #[trigger] final(self).taken(i) == old(self).taken(
                    i,
                ) && final(self).pending(i) == old(self).pending(i),
            forall|i: int|
                1 <= i < old(self).n_links() ==> #[trigger] final(self).queue(i) == old(self).queue(
                    i,
                ),
            ok ==> final(self).published() == old(self).published().push(e) && final(self).queue(0)
                == old(self).queue(0).push(e),
            !ok ==> final(self).published() == old(self).published() && final(self).queue(0) == old(
                self,
            ).queue(0) && old(self).queue(0).len() == old(self).capacity(),
    {
        let n = self.queues[0].len();
        if n < self.capacity {
            let ghost ev = e;
            let ghost qs0 = self.queues@;
            let mut q = self.queues.remove(0);
            q.push(e);
            let ghost qv = q;
            self.queues.insert(0, q);
            proof {
                self.published@ = self.published@.push(ev);
                lemma_put_back(qs0, 0, qv);
                assert(self.queues@ =~= qs0.update(0, qv));
                assert(self.queue(0) =~= old(self).queue(0).push(ev));
                assert(forall|i: int|
                    1 <= i < self.n_links() ==> #[trigger] self.queues@[i] == qs0[i]);
                assert forall|i: int|
                    0 <= i < self.n_links() implies #[trigger] self.queue(i).len()
                    <= self.capacity() by {
                    assert(old(self).queue(i).len() <= old(self).capacity());
                    if i != 0 {
                        assert(self.queues@[i] == qs0[i]);
                    }
                };
                assert forall|i: int|
                    0 <= i < self.n_links() implies (#[trigger] self.pending(i) ==> self.taken(
                        i,
                    ).len() >= 1) by {
                    assert(old(self).pending(i) ==> old(self).taken(i).len() >= 1);
                };
                assert(self.taken(0) + self.queue(0) =~= self.published());
                assert forall|i: int|
                    1 <= i < self.n_links() implies #[trigger] self.taken(i) + self.queue(i)
                    == self.released(i - 1) by {
                    assert(old(self).taken(i) + old(self).queue(i) == old(self).released(i - 1));
                    assert(self.queues@[i] == qs0[i]);
                };
            }
            true
        } else {
            false
        }
    }

    /// Take the next event for link `link`, if one is queued, as an
    /// obligation that must be released before this link receives again.
    pub fn receive(&mut self, link: usize) -> (r: Option<Obligation>)
        requires
            old(self).wf(),
            0 <= link < old(self).n_links(),
            !old(self).pending(link as int),
        ensures
            final(self).wf(),
            final(self).n_links() == old(self).n_links(),
            final(self).capacity() == old(self).capacity(),
            final(self).published() == old(self).published(),
            forall|i: int|
                0 <= i < old(self).n_links() && i != link as int ==> #[trigger] final(self).taken(i)
                    == old(self).taken(i) && final(self).pending(i) == old(self).pending(i)
                    && final(self).queue(i) == old(self).queue(i),
            match r {
                None => *final(self) == *old(self) && old(self).queue(link as int).len() == 0,
                Some(ob) => {
                    &&& old(self).queue(link as int).len() > 0
                    &&& ob.value() == old(self).queue(link as int)[0]
                    &&& ob.link_of() == link as int
                    &&& final(self).valid_obligation(ob)
                    &&& final(self).taken(link as int) == old(self).taken(link as int).push(
                        ob.value(),
                    )
                    &&& final(self).queue(link as int) == old(self).queue(link as int).drop_first()
                    &&& final(self).pending(link as int)
                },
            },
    {
        let len = self.queues[link].len();
        if len == 0 {
            return None;
        }
        let ghost qs0 = self.queues@;
        let ghost ps0 = self.pending@;
        let mut q = self.queues.remove(link);
        let e = q.remove(0);
        let ghost ev = e;
        let ghost qv = q;
        self.queues.insert(link, q);
        self.pending[link] = true;
        proof {
            let L = link as int;
            self.taken@ = self.taken@.update(L, self.taken@[L].push(ev));
            lemma_put_back(qs0, L, qv);
            assert(self.queues@ =~= qs0.update(L, qv));
            assert(self.pending@ =~= ps0.update(L, true));
            assert(self.queue(L) =~= old(self).queue(L).drop_first());
            assert(forall|i: int|
                0 <= i < self.n_links() && i != L ==> #[trigger] self.queues@[i] == qs0[i]);
            assert(self.taken(L) == old(self).taken(L).push(ev));
            assert(self.taken(L).last() == ev);
            assert forall|i: int|
                0 <= i < self.n_links() implies #[trigger] self.queue(i).len()
                <= self.capacity() by {
                assert(old(self).queue(i).len() <= old(self).capacity());
                if i != L {
                    assert(self.queues@[i] == qs0[i]);
                }
            };
            assert forall|i: int|
                0 <= i < self.n_links() implies (#[trigger] self.pending(i) ==> self.taken(
                    i,
                ).len() >= 1) by {
                if i != L {
                    assert(self.pending(i) == old(self).pending(i));
                    assert(old(self).pending(i) ==> old(self).taken(i).len() >= 1);
                }
            };
            assert(self.taken(L).drop_last() =~= old(self).taken(L));
            if L == 0 {
                assert(self.taken(0) + self.queue(0) =~= self.published());
            } else {
                assert(self.taken(L) + self.queue(L) =~= self.released(L - 1));
            }
            assert forall|i: int|
                1 <= i < self.n_links() && i != L && i != L + 1 implies #[trigger] self.taken(i)
                + self.queue(i) == self.released(i - 1) by {
                assert(old(self).taken(i) + old(self).queue(i) == old(self).released(i - 1));
                assert(self.queues@[i] == qs0[i]);
            };
            if L + 1 < self.n_links() {
                assert(old(self).taken(L + 1) + old(self).queue(L + 1) == old(self).released(L));
                assert(self.released(L) =~= old(self).released(L));
                assert(self.queues@[L + 1] == qs0[L + 1]);
                assert(self.taken(L + 1) + self.queue(L + 1) =~= self.released(L));
            }
        }
        Some(Obligation { event: e, link })
    }

    /// Release an obligation: the event moves to the next link's queue, or
    /// leaves the chain at the last link. Refused (the obligation handed
    /// back to retry) exactly when the next link's queue is full; the chain
    /// state is then untouched, which is the backpressure between links.
    pub fn release(&mut self, ob: Obligation) -> (r: Option<Obligation>)
        requires
            old(self).wf(),
            old(self).valid_obligation(ob),
        ensures
            final(self).wf(),
            final(self).n_links() == old(self).n_links(),
            final(self).capacity() == old(self).capacity(),
            final(self).published() == old(self).published(),
            match r {
                Some(ob2) => {
                    &&& *final(self) == *old(self)
                    &&& ob2 == ob
                    &&& ob.link_of() < old(self).n_links() - 1
                    &&& old(self).queue(ob.link_of() + 1).len() == old(self).capacity()
                },
                None => {
                    &&& !final(self).pending(ob.link_of())
                    &&& final(self).taken(ob.link_of()) == old(self).taken(ob.link_of())
                    &&& final(self).queue(ob.link_of()) == old(self).queue(ob.link_of())
                    &&& final(self).released(ob.link_of()) == old(self).released(
                        ob.link_of(),
                    ).push(ob.value())
                    &&& (ob.link_of() < old(self).n_links() - 1 ==> final(self).queue(
                        ob.link_of() + 1,
                    ) == old(self).queue(ob.link_of() + 1).push(ob.value()))
                    &&& forall|i: int|
                        0 <= i < old(self).n_links() && i != ob.link_of() ==> #[trigger] same_slot(
                            *old(self),
                            *final(self),
                            i,
                        )
                    &&& forall|i: int|
                        0 <= i < old(self).n_links() && i != ob.link_of() + 1
                            ==> #[trigger] final(self).queue(i) == old(self).queue(i)
                },
            },
    {
        let ghost obg = ob;
        let Obligation { event, link } = ob;
        let ghost ev = event;
        let is_last = link == self.queues.len() - 1;
        if is_last {
            self.pending[link] = false;
            proof {
                let L = link as int;
                assert(self.pending@ =~= old(self).pending@.update(L, false));
                assert forall|i: int|
                    0 <= i < self.n_links() implies (#[trigger] self.pending(i) ==> self.taken(
                        i,
                    ).len() >= 1) by {
                    if i != L {
                        assert(old(self).pending(i) ==> old(self).taken(i).len() >= 1);
                    }
                };
                assert forall|i: int|
                    0 <= i < self.n_links() implies #[trigger] self.queue(i).len()
                    <= self.capacity() by {
                    assert(old(self).queue(i).len() <= old(self).capacity());
                };
                assert(self.released(L) =~= old(self).released(L).push(ev));
                assert forall|i: int|
                    1 <= i < self.n_links() implies #[trigger] self.taken(i) + self.queue(i)
                    == self.released(i - 1) by {
                    assert(old(self).taken(i) + old(self).queue(i) == old(self).released(i - 1));
                };
            }
            return None;
        }
        let next_len = self.queues[link + 1].len();
        if next_len == self.capacity {
            proof {
                assert(old(self).queue(link as int + 1).len() <= old(self).capacity());
                assert(Obligation { event: ev, link } == obg);
            }
            return Some(Obligation { event, link });
        }
        let ghost qs0 = self.queues@;
        let mut q = self.queues.remove(link + 1);
        q.push(event);
        let ghost qv = q;
        self.queues.insert(link + 1, q);
        self.pending[link] = false;
        proof {
            let L = link as int;
            lemma_put_back(qs0, L + 1, qv);
            assert(self.queues@ =~= qs0.update(L + 1, qv));
            assert(self.pending@ =~= old(self).pending@.update(L, false));
            assert(forall|i: int|
                0 <= i < self.n_links() && i != L + 1 ==> #[trigger] self.queues@[i] == qs0[i]);
            assert(self.queue(L + 1) =~= old(self).queue(L + 1).push(ev));
            assert(self.released(L) =~= old(self).released(L).push(ev));
            assert(old(self).queue(L + 1).len() <= old(self).capacity());
            assert(self.taken(0) + self.queue(0) =~= self.published());
            assert forall|i: int|
                0 <= i < self.n_links() implies #[trigger] self.queue(i).len()
                <= self.capacity() by {
                assert(old(self).queue(i).len() <= old(self).capacity());
                if i != L + 1 {
                    assert(self.queues@[i] == qs0[i]);
                }
            };
            assert forall|i: int|
                0 <= i < self.n_links() implies (#[trigger] self.pending(i) ==> self.taken(
                    i,
                ).len() >= 1) by {
                if i != L {
                    assert(old(self).pending(i) ==> old(self).taken(i).len() >= 1);
                }
            };
            assert(old(self).taken(L + 1) + old(self).queue(L + 1) == old(self).released(L));
            assert(self.taken(L + 1) + self.queue(L + 1) =~= self.released(L));
            assert forall|i: int|
                1 <= i < self.n_links() && i != L + 1 implies #[trigger] self.taken(i)
                + self.queue(i) == self.released(i - 1) by {
                assert(old(self).taken(i) + old(self).queue(i) == old(self).released(i - 1));
                assert(self.queues@[i] == qs0[i]);
            };
        }
        None
    }
}

proof fn lemma_prefix_trans<T>(a: Seq<T>, b: Seq<T>, c: Seq<T>)
    requires
        a.is_prefix_of(b),
        b.is_prefix_of(c),
    ensures
        a.is_prefix_of(c),
{
    assert forall|k: int| 0 <= k < a.len() implies c.subrange(0, a.len() as int)[k] == a[k] by {
        assert(b.subrange(0, b.len() as int)[k] == b[k]);
        assert(a[k] == b.subrange(0, a.len() as int)[k]);
    }
    assert(a =~= c.subrange(0, a.len() as int));
}

/// Fan-out completeness and order: what any link has received is a prefix
/// of what was published. Every consumer thus observes the published events
/// exactly once each, in publication order, with nothing skipped and
/// nothing reordered; delivery of the remainder is only a matter of the
/// application continuing to drive `receive` and `release`.
pub proof fn lemma_fanout_in_order(c: Chain, i: int)
    requires
        c.wf(),
        0 <= i < c.n_links(),
    ensures
        c.taken(i).is_prefix_of(c.published()),
    decreases i,
{
    if i == 0 {
        assert(c.taken(0) + c.queue(0) == c.published());
        assert((c.taken(0) + c.queue(0)).subrange(0, c.taken(0).len() as int) =~= c.taken(0));
    } else {
        lemma_fanout_in_order(c, i - 1);
        assert(c.taken(i) + c.queue(i) == c.released(i - 1));
        assert((c.taken(i) + c.queue(i)).subrange(0, c.taken(i).len() as int) =~= c.taken(i));
        assert(c.taken(i).is_prefix_of(c.released(i - 1)));
        if c.pending(i - 1) {
            assert(c.taken(i - 1).len() >= 1);
            assert(c.released(i - 1) =~= c.taken(i - 1).subrange(0, c.taken(i - 1).len() - 1));
            assert(c.released(i - 1).is_prefix_of(c.taken(i - 1)));
        } else {
            assert(c.released(i - 1) =~= c.taken(i - 1).subrange(
                0,
                c.taken(i - 1).len() as int,
            ));
            assert(c.released(i - 1).is_prefix_of(c.taken(i - 1)));
        }
        lemma_prefix_trans(c.taken(i), c.released(i - 1), c.taken(i - 1));
        lemma_prefix_trans(c.taken(i), c.taken(i - 1), c.published());
    }
}

/// Fan-out completeness: nothing is ever lost between links. What stands
/// before link `i` — the publication history at the head, the predecessor's
/// releases elsewhere — is exactly what the link has received plus what
/// still waits in its queue.
pub proof fn lemma_fanout_complete(c: Chain, i: int)
    requires
        c.wf(),
        0 <= i < c.n_links(),
    ensures
        i == 0 ==> c.taken(0) + c.queue(0) == c.published(),
        i >= 1 ==> c.taken(i) + c.queue(i) == c.released(i - 1),
{
}

/// Ordering across sinks: everything a downstream link has observed, the
/// link before it had already released. In the server's wiring the cache
/// stands before the reload broadcaster, so a broadcast for an event can
/// only happen after the cache's state transition for that event.
pub proof fn lemma_sink_order(c: Chain, i: int)
    requires
        c.wf(),
        0 <= i < c.n_links() - 1,
    ensures
        c.taken(i + 1).is_prefix_of(c.released(i)),
{
    assert(c.taken(i + 1) + c.queue(i + 1) == c.released(i));
    assert((c.taken(i + 1) + c.queue(i + 1)).subrange(0, c.taken(i + 1).len() as int) =~= c.taken(
        i + 1,
    ));
}

/// Backpressure at the head: the publisher can be at most one queue
/// capacity ahead of the head consumer; together with `try_publish`
/// refusing exactly on a full head queue, a slow consumer stalls the
/// publisher rather than growing memory.
pub proof fn lemma_backpressure(c: Chain)
    requires
        c.wf(),
    ensures
        c.published().len() <= c.taken(0).len() + c.capacity(),
{
    assert(c.queue(0).len() <= c.capacity());
    assert(c.published().len() == c.taken(0).len() + c.queue(0).len());
}

/// Backpressure along the chain: the publisher can run at most one queue
/// slot and one obligation slot per intervening link ahead of any link.
pub proof fn lemma_chain_lag(c: Chain, i: int)
    requires
        c.wf(),
        0 <= i < c.n_links(),
    ensures
        c.published().len() <= c.released(i).len() + (i + 1) * (c.capacity() + 1),
    decreases i,
{
    let cap = c.capacity();
    if i == 0 {
        assert(c.queue(0).len() <= cap);
        assert(c.published().len() == c.taken(0).len() + c.queue(0).len());
        assert(c.released(0).len() >= c.taken(0).len() - 1);
        assert(1 * (cap + 1) == cap + 1) by (nonlinear_arith);
    } else {
        lemma_chain_lag(c, i - 1);
        assert(c.taken(i) + c.queue(i) == c.released(i - 1));
        assert(c.released(i - 1).len() == c.taken(i).len() + c.queue(i).len());
        assert(c.queue(i).len() <= cap);
        assert(c.released(i).len() >= c.taken(i).len() - 1);
        assert(i * (cap + 1) + (cap + 1) == (i + 1) * (cap + 1)) by (nonlinear_arith);
    }
}

} // verus!
