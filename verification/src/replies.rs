//! The reply correlator: it pairs outgoing request ids with pending
//! waiters, delivers each reply to its own waiter, and fails every
//! outstanding waiter when the connection goes down.

use vstd::prelude::*;

verus! {

/// The correlator state of one connection: the ids with an outstanding
/// waiter, and whether the correlator was shut down. A waiter that never
/// receives its payload fails with a timeout after the configured
/// deadline, or when the connection is lost.
pub struct Replies {
    timeout_ms: u64,
    pending: Vec<u64>,
    closed: bool,
}

/// Whether a list of pending ids holds `x`.
fn pending_has(v: &Vec<u64>, x: u64) -> (r: bool)
    ensures
        r == v@.contains(x),
{
    let mut i: usize = 0;
    while i < v.len()
        invariant
            i <= v@.len(),
            forall|k: int| 0 <= k < i ==> v@[k] != x,
        decreases v@.len() - i,
    {
        if v[i] == x {
            return true;
        }
        i += 1;
    }
    false
}

impl Replies {
    pub closed spec fn spec_pending(&self) -> Seq<u64> {
        self.pending@
    }

    pub closed spec fn spec_closed(&self) -> bool {
        self.closed
    }

    pub closed spec fn spec_timeout_ms(&self) -> u64 {
        self.timeout_ms
    }

    /// Pending ids are pairwise distinct.
    pub open spec fn wf(&self) -> bool {
        forall|a: int, b: int|
            0 <= a < b < self.spec_pending().len() ==> #[trigger] self.spec_pending()[a]
                != #[trigger] self.spec_pending()[b]
    }

    /// A fresh correlator with the given reply deadline, open and with no
    /// outstanding waiters.
    pub fn new(timeout_ms: u64) -> (r: Self)
        ensures
            r.wf(),
            r.spec_pending() == Seq::<u64>::empty(),
            !r.spec_closed(),
            r.spec_timeout_ms() == timeout_ms,
    {
        Replies { timeout_ms, pending: Vec::new(), closed: false }
    }

    pub fn timeout_ms(&self) -> (r: u64)
        ensures
            r == self.spec_timeout_ms(),
    {
        self.timeout_ms
    }

    /// Registers a waiter for `id`. Only an open correlator accepts
    /// waiters, and each id is registered at most once.
    pub fn wait_for(&mut self, id: u64)
        requires
            old(self).wf(),
            !old(self).spec_closed(),
            !old(self).spec_pending().contains(id),
        ensures
            final(self).wf(),
            final(self).spec_pending() == old(self).spec_pending().push(id),
            final(self).spec_closed() == old(self).spec_closed(),
            final(self).spec_timeout_ms() == old(self).spec_timeout_ms(),
    {
        let ghost pre = self.pending@;
        self.pending.push(id);
        proof {
            assert forall|a: int, b: int|
                0 <= a < b < self.pending@.len() implies #[trigger] self.pending@[a]
                != #[trigger] self.pending@[b] by {
                if b == pre.len() {
                    assert(self.pending@[a] == pre[a]);
                    if pre[a] == id {
                        assert(pre.contains(id));
                    }
                }
            }
        }
    }

    /// Delivers a reply: the payload goes to the waiter for `id` if one is
    /// outstanding, and a late or unknown reply is dropped. A waiter
    /// receives at most one delivery, because its id leaves the pending
    /// set with the first one.
    pub fn complete<R>(&mut self, id: u64, rpl: R) -> (r: Option<R>)
        requires
            old(self).wf(),
        ensures
            final(self).wf(),
            final(self).spec_closed() == old(self).spec_closed(),
            final(self).spec_timeout_ms() == old(self).spec_timeout_ms(),
            r is Some <==> old(self).spec_pending().contains(id),
            r is Some ==> r->Some_0 == rpl,
            !final(self).spec_pending().contains(id),
            forall|x: u64|
                x != id ==> (final(self).spec_pending().contains(x) == old(
                    self,
                ).spec_pending().contains(x)),
    {
        let ghost pre = self.pending@;
        let n = self.pending.len();
        let mut i: usize = 0;
        while i < n
            invariant
                n == pre.len(),
                i <= n,
                *self == *old(self),
                self.pending@ == pre,
                self.wf(),
                forall|k: int| 0 <= k < i ==> #[trigger] pre[k] != id,
            decreases n - i,
        {
            if self.pending[i] == id {
                self.pending.remove(i);
                proof {
                    let cur = self.pending@;
                    assert(cur =~= pre.subrange(0, i as int) + pre.subrange(
                        i as int + 1,
                        n as int,
                    ));
                    assert forall|k: int| 0 <= k < cur.len() implies cur[k] == (if k < i {
                        pre[k]
                    } else {
                        pre[k + 1]
                    }) by {}
                    assert forall|a: int, b: int|
                        0 <= a < b < cur.len() implies #[trigger] cur[a] != #[trigger] cur[b] by {
                        let a0: int = if a < i {
                            a
                        } else {
                            a + 1
                        };
                        let b0: int = if b < i {
                            b
                        } else {
                            b + 1
                        };
                        assert(cur[a] == pre[a0]);
                        assert(cur[b] == pre[b0]);
                        assert(old(self).spec_pending()[a0] != old(self).spec_pending()[b0]);
                    }
                    assert(!cur.contains(id)) by {
                        if cur.contains(id) {
                            let k = choose|k: int| 0 <= k < cur.len() && cur[k] == id;
                            if k < i {
                                assert(pre[k] == id);
                            } else {
                                assert(pre[k + 1] == id);
                                assert(pre[i as int] == id);
                                assert(old(self).spec_pending()[i as int] != old(
                                    self,
                                ).spec_pending()[k + 1]);
                            }
                            assert(false);
                        }
                    }
                    assert(pre.contains(id)) by {
                        assert(pre[i as int] == id);
                    }
                    assert forall|x: u64| x != id implies (cur.contains(x) == pre.contains(x)) by {
                        if cur.contains(x) {
                            let k = choose|k: int| 0 <= k < cur.len() && cur[k] == x;
                            if k < i {
                                assert(pre[k] == x);
                            } else {
                                assert(pre[k + 1] == x);
                            }
                        }
                        if pre.contains(x) {
                            let k = choose|k: int| 0 <= k < pre.len() && pre[k] == x;
                            if k < i {
                                assert(cur[k] == x);
                            } else if k > i {
                                assert(cur[k - 1] == x);
                            }
                        }
                    }
                }
                return Some(rpl);
            }
            i += 1;
        }
        proof {
            if pre.contains(id) {
                let k = choose|k: int| 0 <= k < pre.len() && pre[k] == id;
                assert(false);
            }
        }
        None
    }

    /// Tears the correlator down: every outstanding waiter is handed back
    /// so the caller can fail it, nothing stays pending, and no new waiter
    /// is accepted afterwards.
    pub fn fail_all(&mut self) -> (r: Vec<u64>)
        requires
            old(self).wf(),
        ensures
            final(self).wf(),
            r@ == old(self).spec_pending(),
            final(self).spec_pending() == Seq::<u64>::empty(),
            final(self).spec_closed(),
            final(self).spec_timeout_ms() == old(self).spec_timeout_ms(),
    {
        self.closed = true;
        let mut out: Vec<u64> = Vec::new();
        std::mem::swap(&mut out, &mut self.pending);
        out
    }
}

/// What one `complete` call promises, as a relation between the correlator
/// before and after: `delivered` says whether the payload reached a waiter.
pub open spec fn complete_rel(a: Replies, b: Replies, id: u64, delivered: bool) -> bool {
    &&& (delivered <==> a.spec_pending().contains(id))
    &&& !b.spec_pending().contains(id)
    &&& forall|x: u64|
        x != id ==> (b.spec_pending().contains(x) == a.spec_pending().contains(x))
}

/// Correlator fairness: across any two consecutive deliveries for the same
/// id, at most one reaches a waiter — the first delivery removes the id
/// from the pending set, so the second is dropped.
pub proof fn lemma_at_most_one_delivery(a: Replies, b: Replies, c: Replies, id: u64, d1: bool, d2: bool)
    requires
        complete_rel(a, b, id, d1),
        complete_rel(b, c, id, d2),
    ensures
        !(d1 && d2),
        !d2,
{
}

} // verus!
