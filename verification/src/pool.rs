//! Bounded pool of single-request I/O workers with round-robin dispatch.
//!
//! Each worker owns an inbox of capacity one: at most one outstanding read
//! per worker, which caps disk concurrency and memory for in-flight files.
//! Dispatch picks the next worker by an incrementing counter taken modulo the
//! pool size, so consecutive dispatches spread evenly: over any window of `K`
//! dispatches each worker is chosen `⌊K/N⌋` or `⌈K/N⌉` times. The blocking
//! reads themselves are performed by the application's worker threads, which
//! hand the resulting bytes back as plain values.

use vstd::prelude::*;
use vstd::arithmetic::div_mod::*;

verus! {

/// The wait-free round-robin selector: an incrementing counter reduced
/// modulo the pool size. The counter wraps at the integer limit; the slight
/// unevenness at a wrap is accepted.
pub struct RoundRobin {
    counter: usize,
    max: usize,
}

impl RoundRobin {
    pub closed spec fn spec_counter(self) -> usize {
        self.counter
    }

    pub closed spec fn spec_max(self) -> usize {
        self.max
    }

    pub open spec fn wf(self) -> bool {
        self.spec_max() >= 1
    }

    pub fn new(max: usize) -> (rr: RoundRobin)
        requires
            max >= 1,
        ensures
            rr.wf(),
            rr.spec_max() == max,
            rr.spec_counter() == 0,
    {
        RoundRobin { counter: 0, max }
    }

    /// The next worker index: the counter before the call, modulo the pool
    /// size.
    pub fn get_next(&mut self) -> (r: usize)
        requires
            old(self).wf(),
        ensures
            final(self).wf(),
            final(self).spec_max() == old(self).spec_max(),
            r as int == old(self).spec_counter() as int % old(self).spec_max() as int,
            r < old(self).spec_max(),
            final(self).spec_counter() as int == if old(self).spec_counter() == usize::MAX {
                0
            } else {
                old(self).spec_counter() + 1
            },
    {
        let r = self.counter % self.max;
        self.counter = if self.counter == usize::MAX {
            0
        } else {
            self.counter + 1
        };
        r
    }
}

/// How many of the dispatches numbered `start, start+1, ..., start+count-1`
/// select `worker` in a pool of `n` workers.
pub open spec fn hits(start: int, count: nat, worker: int, n: int) -> int
    decreases count,
{
    if count == 0 {
        0
    } else {
        hits(start, (count - 1) as nat, worker, n) + if (start + count - 1) % n == worker {
            1int
        } else {
            0int
        }
    }
}

/// Dispatch spread: over `count` consecutive dispatches, a worker is
/// selected `count / n` times, plus one more exactly when its offset from
/// the window's start falls inside the remainder.
pub proof fn lemma_round_robin_spread(start: int, count: nat, worker: int, n: int)
    requires
        n >= 1,
        0 <= worker < n,
    ensures
        hits(start, count, worker, n) == count as int / n + if (worker - start) % n < count as int
            % n {
            1int
        } else {
            0int
        },
    decreases count,
{
    let d = (worker - start) % n;
    lemma_mod_division_less_than_divisor(worker - start, n);
    if count == 0 {
        lemma_small_mod(0, n as nat);
        assert(0int / n == 0) by (nonlinear_arith)
            requires
                n >= 1,
        ;
    } else {
        let m = count as int - 1;
        lemma_round_robin_spread(start, (count - 1) as nat, worker, n);
        let q = m / n;
        let r = m % n;
        lemma_fundamental_div_mod(m, n);
        lemma_mod_division_less_than_divisor(m, n);
        // the dispatch numbered start + m selects `worker` exactly when
        // m is congruent to the worker's offset from the window start
        assert(((start + m) % n == worker) <==> (m % n == d)) by {
            lemma_sub_mod_noop(start + m, start, n);
            lemma_sub_mod_noop(worker, start, n);
            lemma_small_mod(worker as nat, n as nat);
            assert((start + m - start) % n == m % n);
            if (start + m) % n == worker {
                assert(((start + m) % n - start % n) % n == (start + m - start) % n);
                assert((worker % n - start % n) % n == (worker - start) % n);
                assert(m % n == d);
            }
            if m % n == d {
                lemma_mod_division_less_than_divisor(start + m, n);
                let a = (start + m) % n;
                assert(((start + m) % n - start % n) % n == m % n);
                assert((worker % n - start % n) % n == d);
                assert((a - start % n) % n == (worker - start % n) % n);
                lemma_sub_mod_noop(a, start % n, n);
                lemma_sub_mod_noop(worker, start % n, n);
                assert((a - start % n) % n == (a % n - (start % n) % n) % n) by {
                    lemma_small_mod(a as nat, n as nat);
                    lemma_mod_twice(start, n);
                }
                // a and worker agree modulo n and both lie in [0, n)
                let s = start % n;
                lemma_fundamental_div_mod(a - s, n);
                lemma_fundamental_div_mod(worker - s, n);
                let q1 = (a - s) / n;
                let q2 = (worker - s) / n;
                let delta = q1 - q2;
                assert(a - worker == n * delta) by (nonlinear_arith)
                    requires
                        a - s == n * q1 + (a - s) % n,
                        worker - s == n * q2 + (worker - s) % n,
                        (a - s) % n == (worker - s) % n,
                        delta == q1 - q2,
                ;
                assert(-n < a - worker < n);
                assert(delta == 0) by (nonlinear_arith)
                    requires
                        n >= 1,
                        -n < n * delta < n,
                ;
                assert(a == worker);
            }
        }
        if r == n - 1 {
            // count is the next multiple of n
            assert(count as int == (q + 1) * n) by (nonlinear_arith)
                requires
                    count as int - 1 == q * n + r,
                    r == n - 1,
            ;
            lemma_fundamental_div_mod_converse(count as int, n, q + 1, 0);
            assert(count as int / n == q + 1 && count as int % n == 0);
        } else {
            assert(count as int == q * n + (r + 1)) by (nonlinear_arith)
                requires
                    count as int - 1 == q * n + r,
            ;
            lemma_fundamental_div_mod_converse(count as int, n, q, r + 1);
            assert(count as int / n == q && count as int % n == r + 1);
        }
    }
}

/// Each worker's share of `count` consecutive dispatches is the floor or the
/// ceiling of `count / n`, and exactly `count / n` when `n` divides `count`.
pub proof fn lemma_round_robin_fair(start: int, count: nat, worker: int, n: int)
    requires
        n >= 1,
        0 <= worker < n,
    ensures
        hits(start, count, worker, n) == count as int / n || hits(start, count, worker, n)
            == count as int / n + 1,
        count as int % n == 0 ==> hits(start, count, worker, n) == count as int / n,
{
    lemma_round_robin_spread(start, count, worker, n);
    lemma_mod_division_less_than_divisor(worker - start, n);
}

/// The pool: one capacity-one inbox per worker and the round-robin selector.
pub struct FileThreadPool {
    inboxes: Vec<Option<Vec<u8>>>,
    scheduler: RoundRobin,
}

impl FileThreadPool {
    /// The number of workers.
    pub closed spec fn n_workers(self) -> int {
        self.inboxes@.len() as int
    }

    /// The request sitting in a worker's inbox, if any.
    pub closed spec fn inbox(self, worker: int) -> Option<Vec<u8>> {
        self.inboxes@[worker]
    }

    /// The dispatch counter: how many dispatches have been issued, modulo
    /// the wrap of the machine integer.
    pub closed spec fn cursor(self) -> int {
        self.scheduler.spec_counter() as int
    }

    pub closed spec fn wf(self) -> bool {
        self.n_workers() >= 1 && self.scheduler.wf() && self.scheduler.spec_max() as int
            == self.n_workers()
    }

    pub fn new(n_threads: usize) -> (pool: FileThreadPool)
        requires
            n_threads >= 1,
        ensures
            pool.wf(),
            pool.n_workers() == n_threads,
            pool.cursor() == 0,
            forall|w: int| 0 <= w < n_threads ==> pool.inbox(w) is None,
    {
        let mut inboxes: Vec<Option<Vec<u8>>> = Vec::new();
        let mut i: usize = 0;
        while i < n_threads
            invariant
                i <= n_threads,
                inboxes@.len() == i,
                forall|w: int| 0 <= w < i ==> inboxes@[w] is None,
            decreases n_threads - i,
        {
            inboxes.push(None);
            i = i + 1;
        }
        FileThreadPool { inboxes, scheduler: RoundRobin::new(n_threads) }
    }

    /// Select the next worker round-robin and hand it the request if its
    /// inbox is free. Returns the chosen worker and whether the request was
    /// admitted; on refusal the caller blocks and retries, which is the
    /// pool's admission control.
    pub fn dispatch(&mut self, path: Vec<u8>) -> (r: (usize, bool))
        requires
            old(self).wf(),
        ensures
            final(self).wf(),
            final(self).n_workers() == old(self).n_workers(),
            r.0 as int == old(self).cursor() % old(self).n_workers(),
            r.0 < old(self).n_workers(),
            final(self).cursor() == if old(self).cursor() == usize::MAX as int {
                0
            } else {
                old(self).cursor() + 1
            },
            r.1 == (old(self).inbox(r.0 as int) is None),
            r.1 ==> final(self).inbox(r.0 as int) == Some(path),
            !r.1 ==> final(self).inbox(r.0 as int) == old(self).inbox(r.0 as int),
            forall|w: int|
                0 <= w < old(self).n_workers() && w != r.0 as int ==> final(self).inbox(w) == old(
                    self,
                ).inbox(w),
    {
        let worker = self.scheduler.get_next();
        let free = self.inboxes[worker].is_none();
        if free {
            self.inboxes.set(worker, Some(path));
        }
        (worker, free)
    }

    /// A worker empties its inbox, taking the request to perform the read.
    pub fn take(&mut self, worker: usize) -> (r: Option<Vec<u8>>)
        requires
            old(self).wf(),
            worker < old(self).n_workers(),
        ensures
            final(self).wf(),
            final(self).n_workers() == old(self).n_workers(),
            final(self).cursor() == old(self).cursor(),
            r == old(self).inbox(worker as int),
            final(self).inbox(worker as int) is None,
            forall|w: int|
                0 <= w < old(self).n_workers() && w != worker as int ==> final(self).inbox(w)
                    == old(self).inbox(w),
    {
        let r = self.inboxes[worker].take();
        r
    }
}

} // verus!
