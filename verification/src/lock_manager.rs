use vstd::prelude::*;

use crate::crypto::now_millis;
use crate::transaction::TransactionId;

verus! {

broadcast use vstd::seq_lib::group_seq_properties, vstd::seq_lib::group_filter_ensures;

/// How a key may be locked: shared for reads, exclusive for writes.
#[derive(Clone, Copy, Debug, PartialEq, Eq, Structural)]
pub enum LockMode {
    Shared,
    Exclusive,
}

/// A granted lock on one key.
#[derive(Clone, Debug)]
pub struct Lock {
    pub mode: LockMode,
    pub holder: TransactionId,
    pub acquired_at: u64,
}

/// A waiting acquisition request.
#[derive(Clone, Debug)]
pub struct LockRequest {
    pub transaction_id: TransactionId,
    pub mode: LockMode,
    pub requested_at: u64,
}

impl LockRequest {
    /// A fresh request stamped with the current clock time.
    pub fn new(transaction_id: TransactionId, mode: LockMode) -> (r: Self)
        ensures
            r.transaction_id == transaction_id,
            r.mode == mode,
    {
        LockRequest { transaction_id, mode, requested_at: now_millis() }
    }
}

/// The mode-and-holder abstraction of a lock list, over which the
/// compatibility rules are stated.
pub open spec fn lock_views(locks: Seq<Lock>) -> Seq<(LockMode, TransactionId)> {
    locks.map(|i: int, l: Lock| (l.mode, l.holder))
}

/// The mode-and-requester abstraction of a wait queue, oldest first.
pub open spec fn queue_views(reqs: Seq<LockRequest>) -> Seq<(LockMode, TransactionId)> {
    reqs.map(|i: int, r: LockRequest| (r.mode, r.transaction_id))
}

/// A queue with every request of one transaction removed, order kept.
pub open spec fn spec_waiters_of(
    q: Seq<(LockMode, TransactionId)>,
    tx: TransactionId,
) -> Seq<(LockMode, TransactionId)>
    decreases q.len(),
{
    if q.len() == 0 {
        Seq::empty()
    } else if q.last().1 == tx {
        spec_waiters_of(q.drop_last(), tx)
    } else {
        spec_waiters_of(q.drop_last(), tx).push(q.last())
    }
}

/// A purged queue is no longer than the original and keeps no request of the
/// purged transaction.
pub proof fn lemma_waiters_ne(q: Seq<(LockMode, TransactionId)>, tx: TransactionId)
    ensures
        spec_waiters_of(q, tx).len() <= q.len(),
        forall|i: int|
            0 <= i < spec_waiters_of(q, tx).len() ==> (#[trigger] spec_waiters_of(q, tx)[i]).1
                != tx,
    decreases q.len(),
{
    if q.len() > 0 {
        lemma_waiters_ne(q.drop_last(), tx);
        if q.last().1 != tx {
            let w = spec_waiters_of(q.drop_last(), tx);
            assert forall|i: int| 0 <= i < w.push(q.last()).len() implies (#[trigger] w.push(
                q.last(),
            )[i]).1 != tx by {
                if i < w.len() {
                    assert(w.push(q.last())[i] == w[i]);
                } else {
                    assert(w.push(q.last())[i] == q.last());
                }
            }
        }
    }
}

/// Whether some lock in the list is held by `tx`.
pub open spec fn spec_holds(lvs: Seq<(LockMode, TransactionId)>, tx: TransactionId) -> bool {
    exists|i: int| 0 <= i < lvs.len() && lvs[i].1 == tx
}

/// The position of the first lock held by `tx`.
pub open spec fn spec_first_held(lvs: Seq<(LockMode, TransactionId)>, tx: TransactionId) -> int {
    choose|i: int|
        0 <= i < lvs.len() && lvs[i].1 == tx && (forall|j: int| 0 <= j < i ==> lvs[j].1 != tx)
}

/// The compatibility table. A transaction already holding a lock is always
/// compatible with itself, except that a shared-to-exclusive upgrade needs
/// sole ownership; otherwise shared goes with shared and exclusive with
/// nothing.
pub open spec fn spec_can_grant(
    lvs: Seq<(LockMode, TransactionId)>,
    mode: LockMode,
    tx: TransactionId,
) -> bool {
    if spec_holds(lvs, tx) {
        let i = spec_first_held(lvs, tx);
        match (lvs[i].0, mode) {
            (LockMode::Shared, LockMode::Shared) => true,
            (LockMode::Exclusive, _) => true,
            (LockMode::Shared, LockMode::Exclusive) => lvs.len() == 1,
        }
    } else {
        match mode {
            LockMode::Shared => forall|i: int| 0 <= i < lvs.len() ==> (#[trigger] lvs[i]).0
                == LockMode::Shared,
            LockMode::Exclusive => lvs.len() == 0,
        }
    }
}

/// When any exclusive lock is present, every lock in the list belongs to one
/// transaction.
pub open spec fn locks_compatible(lvs: Seq<(LockMode, TransactionId)>) -> bool {
    (exists|i: int| 0 <= i < lvs.len() && lvs[i].0 == LockMode::Exclusive) ==> forall|
        i: int,
        j: int,
    |
        0 <= i < lvs.len() && 0 <= j < lvs.len() ==> (#[trigger] lvs[i]).1 == (
        #[trigger] lvs[j]).1
}

/// The granted locks and the FIFO wait queue of one key.
#[derive(Debug)]
pub struct ResourceLocks {
    pub locks: Vec<Lock>,
    pub wait_queue: Vec<LockRequest>,
}

impl ResourceLocks {
    /// A key with no locks and no waiters.
    pub fn new() -> (r: Self)
        ensures
            r.locks@.len() == 0,
            r.wait_queue@.len() == 0,
    {
        ResourceLocks { locks: Vec::new(), wait_queue: Vec::new() }
    }

    /// Whether a request is compatible with the held locks.
    pub fn can_grant(&self, mode: &LockMode, transaction_id: &TransactionId) -> (r: bool)
        ensures
            r == spec_can_grant(lock_views(self.locks@), *mode, *transaction_id),
    {
        let ghost lvs = lock_views(self.locks@);
        let mut i: usize = 0;
        while i < self.locks.len()
            invariant
                lvs == lock_views(self.locks@),
                0 <= i <= self.locks@.len(),
                forall|j: int| 0 <= j < i ==> (#[trigger] lvs[j]).1 != *transaction_id,
            decreases self.locks@.len() - i,
        {
            if self.locks[i].holder == *transaction_id {
                proof {
                    assert(lvs[i as int].1 == *transaction_id);
                    assert(spec_holds(lvs, *transaction_id));
                    let w = spec_first_held(lvs, *transaction_id);
                    assert(0 <= w < lvs.len() && lvs[w].1 == *transaction_id && (forall|j: int|
                        0 <= j < w ==> lvs[j].1 != *transaction_id)) by {
                        assert(0 <= i < lvs.len() && lvs[i as int].1 == *transaction_id && (
                        forall|j: int| 0 <= j < i ==> lvs[j].1 != *transaction_id));
                    }
                    assert(w == i) by {
                        if w < i {
                            assert(lvs[w].1 != *transaction_id);
                        }
                        if i < w {
                            assert(lvs[i as int].1 != *transaction_id);
                        }
                    }
                }
                let r = match (&self.locks[i].mode, mode) {
                    (LockMode::Shared, LockMode::Shared) => true,
                    (LockMode::Exclusive, _) => true,
                    (LockMode::Shared, LockMode::Exclusive) => self.locks.len() == 1,
                };
                return r;
            }
            i += 1;
        }
        proof {
            assert(!spec_holds(lvs, *transaction_id));
        }
        match mode {
            LockMode::Shared => {
                let mut k: usize = 0;
                while k < self.locks.len()
                    invariant
                        lvs == lock_views(self.locks@),
                        0 <= k <= self.locks@.len(),
                        forall|j: int| 0 <= j < k ==> (#[trigger] lvs[j]).0 == LockMode::Shared,
                        !spec_holds(lvs, *transaction_id),
                    decreases self.locks@.len() - k,
                {
                    if !matches!(self.locks[k].mode, LockMode::Shared) {
                        proof {
                            assert(lvs[k as int].0 != LockMode::Shared);
                        }
                        return false;
                    }
                    proof {
                        assert(lvs[k as int].0 == LockMode::Shared);
                    }
                    k += 1;
                }
                true
            },
            LockMode::Exclusive => self.locks.len() == 0,
        }
    }

    /// Grants a lock to a transaction, stamped with the current clock time.
    pub fn grant_lock(&mut self, transaction_id: TransactionId, mode: LockMode)
        ensures
            lock_views(final(self).locks@) == lock_views(old(self).locks@).push(
                (mode, transaction_id),
            ),
            final(self).wait_queue@ == old(self).wait_queue@,
    {
        let lock = Lock { mode, holder: transaction_id, acquired_at: now_millis() };
        self.locks.push(lock);
        proof {
            assert(lock_views(self.locks@) =~= lock_views(old(self).locks@).push(
                (mode, transaction_id),
            ));
        }
    }

    /// Releases every lock a transaction holds on this key; says whether any
    /// was held.
    pub fn release_lock(&mut self, transaction_id: &TransactionId) -> (r: bool)
        ensures
            lock_views(final(self).locks@) == lock_views(old(self).locks@).filter(
                |lv: (LockMode, TransactionId)| lv.1 != *transaction_id,
            ),
            final(self).wait_queue@ == old(self).wait_queue@,
            r == spec_holds(lock_views(old(self).locks@), *transaction_id),
    {
        let ghost lvs = lock_views(self.locks@);
        let ghost pred = |lv: (LockMode, TransactionId)| lv.1 != *transaction_id;
        let mut kept: Vec<Lock> = Vec::new();
        let mut found = false;
        let mut i: usize = 0;
        proof {
            reveal(Seq::filter);
            assert(lock_views(kept@) =~= lvs.take(0).filter(pred));
        }
        while i < self.locks.len()
            invariant
                lvs == lock_views(self.locks@),
                pred == (|lv: (LockMode, TransactionId)| lv.1 != *transaction_id),
                0 <= i <= self.locks@.len(),
                lock_views(kept@) == lvs.take(i as int).filter(pred),
                found == exists|j: int| 0 <= j < i && (#[trigger] lvs[j]).1 == *transaction_id,
            decreases self.locks@.len() - i,
        {
            proof {
                reveal(Seq::filter);
                assert(lvs.take(i as int + 1).drop_last() =~= lvs.take(i as int));
                assert(lvs.take(i as int + 1).last() == lvs[i as int]);
            }
            if self.locks[i].holder == *transaction_id {
                found = true;
                proof {
                    assert(lvs[i as int].1 == *transaction_id);
                }
            } else {
                let ghost prev = kept@;
                kept.push(Lock {
                    mode: self.locks[i].mode,
                    holder: self.locks[i].holder,
                    acquired_at: self.locks[i].acquired_at,
                });
                proof {
                    assert(lvs[i as int].1 != *transaction_id);
                    assert(lock_views(kept@) =~= lock_views(prev).push(lvs[i as int]));
                }
            }
            i += 1;
        }
        proof {
            assert(lvs.take(lvs.len() as int) =~= lvs);
        }
        self.locks = kept;
        found
    }

    /// Removes every queued request of one transaction; the held locks and
    /// the other requests stay, in order.
    pub fn purge_requests(&mut self, transaction_id: &TransactionId)
        ensures
            final(self).locks@ == old(self).locks@,
            queue_views(final(self).wait_queue@) == spec_waiters_of(
                queue_views(old(self).wait_queue@),
                *transaction_id,
            ),
    {
        let ghost qvs = queue_views(self.wait_queue@);
        let mut kept: Vec<LockRequest> = Vec::new();
        let mut i: usize = 0;
        proof {
            assert(queue_views(kept@) =~= spec_waiters_of(qvs.take(0), *transaction_id));
        }
        while i < self.wait_queue.len()
            invariant
                qvs == queue_views(self.wait_queue@),
                0 <= i <= self.wait_queue@.len(),
                queue_views(kept@) == spec_waiters_of(qvs.take(i as int), *transaction_id),
                self.locks@ == old(self).locks@,
            decreases self.wait_queue@.len() - i,
        {
            proof {
                assert(qvs.take(i as int + 1).drop_last() =~= qvs.take(i as int));
                assert(qvs.take(i as int + 1).last() == qvs[i as int]);
            }
            if self.wait_queue[i].transaction_id == *transaction_id {
                proof {
                    assert(qvs[i as int].1 == *transaction_id);
                }
            } else {
                let ghost prev = kept@;
                kept.push(LockRequest {
                    transaction_id: self.wait_queue[i].transaction_id,
                    mode: self.wait_queue[i].mode,
                    requested_at: self.wait_queue[i].requested_at,
                });
                proof {
                    assert(qvs[i as int].1 != *transaction_id);
                    assert(queue_views(kept@) =~= queue_views(prev).push(qvs[i as int]));
                }
            }
            i += 1;
        }
        proof {
            assert(qvs.take(qvs.len() as int) =~= qvs);
        }
        self.wait_queue = kept;
    }

    /// Whether the transaction holds a lock on this key.
    pub fn has_lock(&self, transaction_id: &TransactionId) -> (r: bool)
        ensures
            r == spec_holds(lock_views(self.locks@), *transaction_id),
    {
        let ghost lvs = lock_views(self.locks@);
        let mut i: usize = 0;
        while i < self.locks.len()
            invariant
                lvs == lock_views(self.locks@),
                0 <= i <= self.locks@.len(),
                forall|j: int| 0 <= j < i ==> (#[trigger] lvs[j]).1 != *transaction_id,
            decreases self.locks@.len() - i,
        {
            if self.locks[i].holder == *transaction_id {
                proof {
                    assert(lvs[i as int].1 == *transaction_id);
                }
                return true;
            }
            i += 1;
        }
        false
    }
}

/// Granting only compatible requests keeps a key's locks compatible: an
/// exclusive lock never coexists with another transaction's lock.
pub proof fn lemma_grant_keeps_compatible(
    lvs: Seq<(LockMode, TransactionId)>,
    mode: LockMode,
    tx: TransactionId,
)
    requires
        locks_compatible(lvs),
        spec_can_grant(lvs, mode, tx),
    ensures
        locks_compatible(lvs.push((mode, tx))),
{
    let post = lvs.push((mode, tx));
    assert(post[lvs.len() as int] == (mode, tx));
    if exists|i: int| 0 <= i < post.len() && post[i].0 == LockMode::Exclusive {
        let e = choose|e: int| 0 <= e < post.len() && post[e].0 == LockMode::Exclusive;
        if e < lvs.len() {
            // an exclusive lock was already held, so every old lock belongs
            // to one transaction, and the grant can only have gone to it
            assert(lvs[e].0 == LockMode::Exclusive);
            assert(forall|i: int, j: int|
                0 <= i < lvs.len() && 0 <= j < lvs.len() ==> (#[trigger] lvs[i]).1 == (
                #[trigger] lvs[j]).1);
            assert(tx == lvs[e].1) by {
                if spec_holds(lvs, tx) {
                    let w = choose|w: int| 0 <= w < lvs.len() && lvs[w].1 == tx;
                    assert(lvs[w].1 == lvs[e].1);
                } else {
                    if mode == LockMode::Shared {
                        assert(lvs[e].0 == LockMode::Shared);
                    } else {
                        assert(lvs.len() == 0);
                    }
                }
            }
            assert forall|i: int, j: int|
                0 <= i < post.len() && 0 <= j < post.len() implies (#[trigger] post[i]).1 == (
            #[trigger] post[j]).1 by {
                if i < lvs.len() {
                    assert(post[i].1 == lvs[i].1);
                }
                if j < lvs.len() {
                    assert(post[j].1 == lvs[j].1);
                }
            }
        } else {
            // the newly granted lock is the exclusive one
            assert(mode == LockMode::Exclusive);
            if spec_holds(lvs, tx) {
                let w = choose|w: int| 0 <= w < lvs.len() && lvs[w].1 == tx;
                lemma_first_held_exists(lvs, tx, w);
                let f = spec_first_held(lvs, tx);
                match lvs[f].0 {
                    LockMode::Shared => {
                        assert(lvs.len() == 1);
                        assert(lvs[0].1 == tx);
                    },
                    LockMode::Exclusive => {
                        assert(forall|i: int, j: int|
                            0 <= i < lvs.len() && 0 <= j < lvs.len() ==> (#[trigger] lvs[i]).1
                                == (#[trigger] lvs[j]).1);
                        assert(lvs[f].1 == tx);
                    },
                }
            } else {
                assert(lvs.len() == 0);
            }
            assert forall|i: int, j: int|
                0 <= i < post.len() && 0 <= j < post.len() implies (#[trigger] post[i]).1 == (
            #[trigger] post[j]).1 by {
                if i < lvs.len() {
                    assert(lvs[i].1 == tx);
                }
                if j < lvs.len() {
                    assert(lvs[j].1 == tx);
                }
            }
        }
    }
}

/// A witness of holding yields the minimal held position.
pub proof fn lemma_first_held_exists(
    lvs: Seq<(LockMode, TransactionId)>,
    tx: TransactionId,
    w: int,
)
    requires
        0 <= w < lvs.len(),
        lvs[w].1 == tx,
    ensures
        ({
            let f = spec_first_held(lvs, tx);
            &&& 0 <= f < lvs.len()
            &&& lvs[f].1 == tx
            &&& forall|j: int| 0 <= j < f ==> lvs[j].1 != tx
        }),
    decreases w,
{
    if forall|j: int| 0 <= j < w ==> (#[trigger] lvs[j]).1 != tx {
        assert(0 <= w < lvs.len() && lvs[w].1 == tx && (forall|j: int|
            0 <= j < w ==> lvs[j].1 != tx));
    } else {
        let w2 = choose|w2: int| 0 <= w2 < w && (#[trigger] lvs[w2]).1 == tx;
        lemma_first_held_exists(lvs, tx, w2);
    }
}


/// Whether a transaction is recorded as waiting for a resource.
pub open spec fn spec_waits(
    s: Seq<(TransactionId, Vec<Vec<u8>>)>,
    tx: TransactionId,
    resource: Seq<u8>,
) -> bool {
    exists|i: int, j: int|
        0 <= i < s.len() && (#[trigger] s[i]).0 == tx && 0 <= j < s[i].1@.len() && (
        #[trigger] s[i].1@[j])@ == resource
}

/// Whether a transaction is recorded as holding a resource.
pub open spec fn spec_held(
    s: Seq<(Vec<u8>, Vec<TransactionId>)>,
    resource: Seq<u8>,
    tx: TransactionId,
) -> bool {
    exists|i: int, j: int|
        0 <= i < s.len() && (#[trigger] s[i]).0@ == resource && 0 <= j < s[i].1@.len() && (
        #[trigger] s[i].1@[j]) == tx
}

/// Whether a transaction is recorded as waiting for at least one resource.
pub open spec fn spec_is_waiting(s: Seq<(TransactionId, Vec<Vec<u8>>)>, t: TransactionId) -> bool {
    exists|i: int| 0 <= i < s.len() && (#[trigger] s[i]).0 == t && s[i].1@.len() > 0
}

/// The wait-for graph behind deadlock detection: which resources each
/// waiting transaction needs, and which transactions hold each resource.
#[derive(Debug)]
pub struct DeadlockDetector {
    wait_for: Vec<(TransactionId, Vec<Vec<u8>>)>,
    held_by: Vec<(Vec<u8>, Vec<TransactionId>)>,
}

/// Whether a transaction occurs in a list.
pub open spec fn spec_id_in(s: Seq<TransactionId>, b: TransactionId) -> bool {
    exists|x: int| 0 <= x < s.len() && (#[trigger] s[x]) == b
}

/// Whether `a` is recorded as waiting for resource `k`.
pub open spec fn spec_waits_for(d: DeadlockDetector, a: TransactionId, k: Seq<u8>) -> bool {
    exists|i: int, j: int|
        0 <= i < d.waits_view().len() && (#[trigger] d.waits_view()[i]).0 == a && 0 <= j
            < d.waits_view()[i].1@.len() && (#[trigger] d.waits_view()[i].1@[j])@ == k
}

/// Whether `b` is recorded as holding resource `k`.
pub open spec fn spec_holds_res(d: DeadlockDetector, k: Seq<u8>, b: TransactionId) -> bool {
    exists|h: int, t: int|
        0 <= h < d.held_view().len() && (#[trigger] d.held_view()[h]).0@ == k && 0 <= t
            < d.held_view()[h].1@.len() && (#[trigger] d.held_view()[h].1@[t]) == b
}

/// One step of the wait-for graph: `a` waits for a resource `b` holds.
pub open spec fn spec_edge(d: DeadlockDetector, a: TransactionId, b: TransactionId) -> bool {
    exists|k: Seq<u8>| #[trigger] spec_waits_for(d, a, k) && spec_holds_res(d, k, b)
}

impl DeadlockDetector {
    /// The recorded wait edges.
    pub closed spec fn waits_view(&self) -> Seq<(TransactionId, Vec<Vec<u8>>)> {
        self.wait_for@
    }

    /// The recorded hold edges.
    pub closed spec fn held_view(&self) -> Seq<(Vec<u8>, Vec<TransactionId>)> {
        self.held_by@
    }

    /// Each transaction and each resource has at most one entry.
    pub closed spec fn wf(&self) -> bool {
        &&& forall|i: int, j: int|
            0 <= i < j < self.wait_for@.len() ==> (#[trigger] self.wait_for@[i]).0 != (
            #[trigger] self.wait_for@[j]).0
        &&& forall|i: int, j: int|
            0 <= i < j < self.held_by@.len() ==> (#[trigger] self.held_by@[i]).0@ != (
            #[trigger] self.held_by@[j]).0@
    }

    /// An empty graph.
    pub fn new() -> (r: Self)
        ensures
            r.wf(),
            r.waits_view().len() == 0,
            r.held_view().len() == 0,
    {
        DeadlockDetector { wait_for: Vec::new(), held_by: Vec::new() }
    }

    /// Records that a transaction waits for a resource.
    pub fn add_wait_edge(&mut self, transaction: TransactionId, resource: &[u8])
        requires
            old(self).wf(),
        ensures
            final(self).wf(),
            forall|t: TransactionId, res: Seq<u8>|
                spec_waits(final(self).waits_view(), t, res) == (spec_waits(
                    old(self).waits_view(),
                    t,
                    res,
                ) || (t == transaction && res == resource@)),
            final(self).held_view() == old(self).held_view(),
    {
        let ghost pre = self.wait_for@;
        let mut i: usize = 0;
        let n = self.wait_for.len();
        while i < n
            invariant
                *self == *old(self),
                old(self).wf(),
                pre == old(self).wait_for@,
                n == self.wait_for@.len(),
                0 <= i <= n,
                forall|j: int| 0 <= j < i ==> (#[trigger] self.wait_for@[j]).0 != transaction,
            decreases n - i,
        {
            if self.wait_for[i].0 == transaction {
                let mut list_copy = self.wait_for[i].1.clone();
                let mut key_vec: Vec<u8> = Vec::new();
                crate::util::extend_bytes(&mut key_vec, resource);
                proof {
                    assert(key_vec@ =~= resource@);
                    assert(list_copy@.len() == pre[i as int].1@.len());
                    assert forall|b: int| 0 <= b < list_copy@.len() implies (
                    #[trigger] list_copy@[b])@ == pre[i as int].1@[b]@ by {}
                }
                list_copy.push(key_vec);
                self.wait_for.set(i, (transaction, list_copy));
                proof {
                    lemma_wait_entry_extended(pre, self.wait_for@, i as int, transaction, resource@);
                }
                return;
            }
            i += 1;
        }
        let mut key_vec: Vec<u8> = Vec::new();
        crate::util::extend_bytes(&mut key_vec, resource);
        proof {
            assert(key_vec@ =~= resource@);
        }
        let mut fresh_list: Vec<Vec<u8>> = Vec::new();
        fresh_list.push(key_vec);
        self.wait_for.push((transaction, fresh_list));
        proof {
            let post = self.wait_for@;
            let n2 = post.len() - 1;
            assert(post[n2].0 == transaction && post[n2].1@.len() == 1 && post[n2].1@[0]@
                == resource@);
            assert forall|a: int, b: int| 0 <= a < b < post.len() implies (
            #[trigger] post[a]).0 != (#[trigger] post[b]).0 by {
                if b < n2 {
                    assert(pre[a].0 != pre[b].0);
                } else {
                    assert(pre[a].0 != transaction);
                }
            }
            assert forall|t: TransactionId, res: Seq<u8>|
                spec_waits(post, t, res) == (spec_waits(pre, t, res) || (t == transaction && res
                    == resource@)) by {
                if spec_waits(post, t, res) {
                    let (a, b): (int, int) = choose|a: int, b: int|
                        0 <= a < post.len() && (#[trigger] post[a]).0 == t && 0 <= b
                            < post[a].1@.len() && (#[trigger] post[a].1@[b])@ == res;
                    if a < n2 {
                        assert(pre[a].0 == t && pre[a].1@[b]@ == res);
                    }
                }
                if spec_waits(pre, t, res) {
                    let (a, b): (int, int) = choose|a: int, b: int|
                        0 <= a < pre.len() && (#[trigger] pre[a]).0 == t && 0 <= b
                            < pre[a].1@.len() && (#[trigger] pre[a].1@[b])@ == res;
                    assert(post[a].0 == t && post[a].1@[b]@ == res);
                }
                if t == transaction && res == resource@ {
                    assert(post[n2].0 == t && post[n2].1@[0]@ == res);
                }
            }
        }
    }

    /// Forgets that a transaction waits for a resource.
    pub fn remove_wait_edge(&mut self, transaction: &TransactionId, resource: &[u8])
        requires
            old(self).wf(),
        ensures
            final(self).wf(),
            !spec_waits(final(self).waits_view(), *transaction, resource@),
            forall|t: TransactionId, res: Seq<u8>|
                spec_waits(old(self).waits_view(), t, res) && !(t == *transaction && res
                    == resource@) ==> spec_waits(final(self).waits_view(), t, res),
            final(self).held_view() == old(self).held_view(),
    {
        let ghost pre = self.wait_for@;
        let mut i: usize = 0;
        let n = self.wait_for.len();
        while i < n
            invariant
                *self == *old(self),
                old(self).wf(),
                pre == old(self).wait_for@,
                n == self.wait_for@.len(),
                0 <= i <= n,
                forall|j: int| 0 <= j < i ==> (#[trigger] self.wait_for@[j]).0 != *transaction,
            decreases n - i,
        {
            if self.wait_for[i].0 == *transaction {
                let kept = filter_bytes(&self.wait_for[i].1, resource);
                let ghost kept_view = kept@;
                proof {
                    assert(self.wait_for@[i as int].1 == pre[i as int].1);
                }
                let tx_copy = self.wait_for[i].0;
                self.wait_for.set(i, (tx_copy, kept));
                proof {
                    assert(self.wait_for@[i as int].1@ == kept_view);
                    lemma_wait_entry_filtered(
                        pre,
                        self.wait_for@,
                        i as int,
                        *transaction,
                        resource@,
                        kept_view,
                    );
                }
                return;
            }
            i += 1;
        }
        proof {
            assert forall|t: TransactionId, res: Seq<u8>|
                spec_waits(self.wait_for@, t, res) == (spec_waits(pre, t, res) && !(t
                    == *transaction && res == resource@)) by {
                if spec_waits(pre, t, res) && t == *transaction {
                    let (a, b): (int, int) = choose|a: int, b: int|
                        0 <= a < pre.len() && (#[trigger] pre[a]).0 == t && 0 <= b
                            < pre[a].1@.len() && (#[trigger] pre[a].1@[b])@ == res;
                }
            }
        }
    }

    /// Records that a transaction holds a resource.
    pub fn add_hold_edge(&mut self, transaction: TransactionId, resource: &[u8])
        requires
            old(self).wf(),
        ensures
            final(self).wf(),
            forall|res: Seq<u8>, t: TransactionId|
                spec_held(final(self).held_view(), res, t) == (spec_held(
                    old(self).held_view(),
                    res,
                    t,
                ) || (res == resource@ && t == transaction)),
            final(self).waits_view() == old(self).waits_view(),
    {
        let ghost pre = self.held_by@;
        let mut i: usize = 0;
        let n = self.held_by.len();
        while i < n
            invariant
                *self == *old(self),
                old(self).wf(),
                pre == old(self).held_by@,
                n == self.held_by@.len(),
                0 <= i <= n,
                forall|j: int| 0 <= j < i ==> (#[trigger] self.held_by@[j]).0@ != resource@,
            decreases n - i,
        {
            if crate::util::bytes_eq(self.held_by[i].0.as_slice(), resource) {
                let key_copy = self.held_by[i].0.clone();
                let mut list_copy = self.held_by[i].1.clone();
                proof {
                    assert(key_copy@ =~= pre[i as int].0@);
                    assert(list_copy@.len() == pre[i as int].1@.len());
                    assert forall|b: int| 0 <= b < list_copy@.len() implies (
                    #[trigger] list_copy@[b]) == pre[i as int].1@[b] by {}
                }
                list_copy.push(transaction);
                self.held_by.set(i, (key_copy, list_copy));
                proof {
                    lemma_hold_entry_extended(pre, self.held_by@, i as int, resource@, transaction);
                }
                return;
            }
            i += 1;
        }
        let mut key_vec: Vec<u8> = Vec::new();
        crate::util::extend_bytes(&mut key_vec, resource);
        proof {
            assert(key_vec@ =~= resource@);
        }
        let mut fresh_list: Vec<TransactionId> = Vec::new();
        fresh_list.push(transaction);
        self.held_by.push((key_vec, fresh_list));
        proof {
            let post = self.held_by@;
            let n2 = post.len() - 1;
            assert(post[n2].0@ == resource@ && post[n2].1@.len() == 1 && post[n2].1@[0]
                == transaction);
            assert forall|a: int, b: int| 0 <= a < b < post.len() implies (
            #[trigger] post[a]).0@ != (#[trigger] post[b]).0@ by {
                if b < n2 {
                    assert(pre[a].0@ != pre[b].0@);
                } else {
                    assert(pre[a].0@ != resource@);
                }
            }
            assert forall|res: Seq<u8>, t: TransactionId|
                spec_held(post, res, t) == (spec_held(pre, res, t) || (res == resource@ && t
                    == transaction)) by {
                if spec_held(post, res, t) {
                    let (a, b): (int, int) = choose|a: int, b: int|
                        0 <= a < post.len() && (#[trigger] post[a]).0@ == res && 0 <= b
                            < post[a].1@.len() && (#[trigger] post[a].1@[b]) == t;
                    if a < n2 {
                        assert(pre[a].0@ == res && pre[a].1@[b] == t);
                    }
                }
                if spec_held(pre, res, t) {
                    let (a, b): (int, int) = choose|a: int, b: int|
                        0 <= a < pre.len() && (#[trigger] pre[a]).0@ == res && 0 <= b
                            < pre[a].1@.len() && (#[trigger] pre[a].1@[b]) == t;
                    assert(post[a].0@ == res && post[a].1@[b] == t);
                }
                if res == resource@ && t == transaction {
                    assert(post[n2].0@ == res && post[n2].1@[0] == t);
                }
            }
        }
    }

    /// Forgets that a transaction holds a resource.
    pub fn remove_hold_edge(&mut self, transaction: &TransactionId, resource: &[u8])
        requires
            old(self).wf(),
        ensures
            final(self).wf(),
            !spec_held(final(self).held_view(), resource@, *transaction),
            forall|res: Seq<u8>, t: TransactionId|
                spec_held(old(self).held_view(), res, t) && !(res == resource@ && t
                    == *transaction) ==> spec_held(final(self).held_view(), res, t),
            final(self).held_view().len() == old(self).held_view().len(),
            final(self).waits_view() == old(self).waits_view(),
    {
        let ghost pre = self.held_by@;
        let mut i: usize = 0;
        let n = self.held_by.len();
        while i < n
            invariant
                *self == *old(self),
                old(self).wf(),
                pre == old(self).held_by@,
                n == self.held_by@.len(),
                0 <= i <= n,
                forall|j: int| 0 <= j < i ==> (#[trigger] self.held_by@[j]).0@ != resource@,
            decreases n - i,
        {
            if crate::util::bytes_eq(self.held_by[i].0.as_slice(), resource) {
                let key_copy = self.held_by[i].0.clone();
                proof {
                    assert(key_copy@ =~= pre[i as int].0@);
                }
                let kept = filter_ids(&self.held_by[i].1, transaction);
                let ghost kept_view = kept@;
                proof {
                    assert(self.held_by@[i as int].1 == pre[i as int].1);
                }
                self.held_by.set(i, (key_copy, kept));
                proof {
                    assert(self.held_by@[i as int].1@ == kept_view);
                    lemma_hold_entry_filtered(
                        pre,
                        self.held_by@,
                        i as int,
                        resource@,
                        *transaction,
                        kept_view,
                    );
                }
                return;
            }
            i += 1;
        }
        proof {
            assert forall|res: Seq<u8>, t: TransactionId|
                spec_held(self.held_by@, res, t) == (spec_held(pre, res, t) && !(res == resource@
                    && t == *transaction)) by {
                if spec_held(pre, res, t) && res == resource@ {
                    let (a, b): (int, int) = choose|a: int, b: int|
                        0 <= a < pre.len() && (#[trigger] pre[a]).0@ == res && 0 <= b
                            < pre[a].1@.len() && (#[trigger] pre[a].1@[b]) == t;
                }
            }
        }
    }

    /// Removes a transaction's wait edges and every hold edge it has.
    pub fn remove_transaction(&mut self, transaction: &TransactionId)
        requires
            old(self).wf(),
        ensures
            final(self).wf(),
            forall|res: Seq<u8>| !spec_waits(final(self).waits_view(), *transaction, res),
            forall|t: TransactionId, res: Seq<u8>|
                spec_waits(old(self).waits_view(), t, res) && t != *transaction ==> spec_waits(
                    final(self).waits_view(),
                    t,
                    res,
                ),
    {
        let ghost pre = self.wait_for@;
        let mut i: usize = 0;
        let n = self.wait_for.len();
        let mut found: Option<usize> = None;
        while i < n
            invariant
                *self == *old(self),
                old(self).wf(),
                pre == old(self).wait_for@,
                n == self.wait_for@.len(),
                0 <= i <= n,
                found is None ==> forall|j: int|
                    0 <= j < i ==> (#[trigger] self.wait_for@[j]).0 != *transaction,
                found matches Some(f) ==> f < i && self.wait_for@[f as int].0 == *transaction,
            decreases n - i,
        {
            if self.wait_for[i].0 == *transaction {
                found = Some(i);
            }
            i += 1;
        }
        match found {
            Some(f) => {
                let _removed = self.wait_for.remove(f);
                proof {
                    let post = self.wait_for@;
                    assert(post =~= pre.remove(f as int));
                    assert forall|a: int, b: int| 0 <= a < b < post.len() implies (
                    #[trigger] post[a]).0 != (#[trigger] post[b]).0 by {
                        let a2: int = if a < f {
                            a
                        } else {
                            a + 1
                        };
                        let b2: int = if b < f {
                            b
                        } else {
                            b + 1
                        };
                        assert(pre[a2].0 != pre[b2].0);
                    }
                    assert forall|res: Seq<u8>| !spec_waits(post, *transaction, res) by {
                        if spec_waits(post, *transaction, res) {
                            let (a, b): (int, int) = choose|a: int, b: int|
                                0 <= a < post.len() && (#[trigger] post[a]).0 == *transaction
                                    && 0 <= b < post[a].1@.len() && (#[trigger] post[a].1@[b])@
                                    == res;
                            let a2: int = if a < f {
                                a
                            } else {
                                a + 1
                            };
                            assert(pre[a2].0 == *transaction);
                            assert(pre[if a2 < f {
                                a2
                            } else {
                                f as int
                            }].0 != pre[if a2 < f {
                                f as int
                            } else {
                                a2
                            }].0);
                        }
                    }
                    assert forall|t: TransactionId, res: Seq<u8>|
                        spec_waits(pre, t, res) && t != *transaction implies spec_waits(
                        post,
                        t,
                        res,
                    ) by {
                        let (a, b): (int, int) = choose|a: int, b: int|
                            0 <= a < pre.len() && (#[trigger] pre[a]).0 == t && 0 <= b
                                < pre[a].1@.len() && (#[trigger] pre[a].1@[b])@ == res;
                        if a < f {
                            assert(post[a].0 == t && post[a].1@[b]@ == res);
                        } else {
                            assert(a != f);
                            assert(post[a - 1].0 == t && post[a - 1].1@[b]@ == res);
                        }
                    }
                }
            },
            None => {
                proof {
                    assert forall|res: Seq<u8>| !spec_waits(self.wait_for@, *transaction, res)
                        by {
                        if spec_waits(self.wait_for@, *transaction, res) {
                            let (a, b): (int, int) = choose|a: int, b: int|
                                0 <= a < self.wait_for@.len() && (#[trigger] self.wait_for@[
                                a]).0 == *transaction && 0 <= b < self.wait_for@[a].1@.len()
                                    && (#[trigger] self.wait_for@[a].1@[b])@ == res;
                        }
                    }
                }
            },
        }
        let mut h: usize = 0;
        let hold_count = self.held_by.len();
        while h < hold_count
            invariant
                self.wf(),
                0 <= h <= hold_count,
                hold_count == self.held_by@.len(),
                forall|res: Seq<u8>| !spec_waits(self.wait_for@, *transaction, res),
                forall|t: TransactionId, res: Seq<u8>|
                    spec_waits(pre, t, res) && t != *transaction ==> spec_waits(
                        self.wait_for@,
                        t,
                        res,
                    ),
            decreases hold_count - h,
        {
            let key = self.held_by[h].0.clone();
            self.remove_hold_edge(transaction, key.as_slice());
            h += 1;
        }
    }

    /// The transactions one wait-then-hold step away from `start`: the
    /// holders of every resource `start` waits for. Every such successor is
    /// listed in the result.
    fn successors(&self, start: &TransactionId) -> (r: Vec<TransactionId>)
        ensures
            forall|b: TransactionId|
                #[trigger] spec_edge(*self, *start, b) ==> spec_id_in(r@, b),
    {
        let mut r: Vec<TransactionId> = Vec::new();
        let mut i: usize = 0;
        while i < self.wait_for.len()
            invariant
                0 <= i <= self.wait_for@.len(),
                forall|i2: int, j2: int, b: TransactionId|
                    0 <= i2 < i && self.wait_for@[i2].0 == *start && 0 <= j2
                        < self.wait_for@[i2].1@.len() && #[trigger] spec_holds_res(
                        *self,
                        self.wait_for@[i2].1@[j2]@,
                        b,
                    ) ==> spec_id_in(r@, b),
            decreases self.wait_for@.len() - i,
        {
            if self.wait_for[i].0 == *start {
                let mut j: usize = 0;
                let m = self.wait_for[i].1.len();
                while j < m
                    invariant
                        i < self.wait_for@.len(),
                        m == self.wait_for@[i as int].1@.len(),
                        0 <= j <= m,
                        forall|i2: int, j2: int, b: TransactionId|
                            0 <= i2 < i && self.wait_for@[i2].0 == *start && 0 <= j2
                                < self.wait_for@[i2].1@.len() && #[trigger] spec_holds_res(
                                *self,
                                self.wait_for@[i2].1@[j2]@,
                                b,
                            ) ==> spec_id_in(r@, b),
                        forall|j2: int, b: TransactionId|
                            0 <= j2 < j && #[trigger] spec_holds_res(
                                *self,
                                self.wait_for@[i as int].1@[j2]@,
                                b,
                            ) ==> spec_id_in(r@, b),
                    decreases m - j,
                {
                    self.push_holders_of(self.wait_for[i].1[j].as_slice(), &mut r);
                    j += 1;
                }
            }
            i += 1;
        }
        proof {
            assert forall|b: TransactionId| spec_edge(*self, *start, b) implies spec_id_in(
                r@,
                b,
            ) by {
                let k = choose|k: Seq<u8>|
                    #[trigger] spec_waits_for(*self, *start, k) && spec_holds_res(*self, k, b);
                let (i2, j2): (int, int) = choose|i2: int, j2: int|
                    0 <= i2 < self.waits_view().len() && (#[trigger] self.waits_view()[i2]).0
                        == *start && 0 <= j2 < self.waits_view()[i2].1@.len() && (
                    #[trigger] self.waits_view()[i2].1@[j2])@ == k;
                assert(spec_holds_res(*self, self.wait_for@[i2].1@[j2]@, b));
            }
        }
        r
    }

    /// Adds every recorded holder of a resource to the accumulator; nothing
    /// already there is lost.
    fn push_holders_of(&self, key: &[u8], r: &mut Vec<TransactionId>)
        ensures
            forall|b: TransactionId|
                #[trigger] spec_id_in(old(r)@, b) ==> spec_id_in(final(r)@, b),
            forall|b: TransactionId|
                #[trigger] spec_holds_res(*self, key@, b) ==> spec_id_in(final(r)@, b),
    {
        let mut h: usize = 0;
        while h < self.held_by.len()
            invariant
                0 <= h <= self.held_by@.len(),
                forall|b: TransactionId|
                    #[trigger] spec_id_in(old(r)@, b) ==> spec_id_in(r@, b),
                forall|h2: int, t2: int|
                    0 <= h2 < h && (#[trigger] self.held_by@[h2]).0@ == key@ && 0 <= t2
                        < self.held_by@[h2].1@.len() ==> spec_id_in(
                        r@,
                        #[trigger] self.held_by@[h2].1@[t2],
                    ),
            decreases self.held_by@.len() - h,
        {
            if crate::util::bytes_eq(self.held_by[h].0.as_slice(), key) {
                let mut t: usize = 0;
                let holders = self.held_by[h].1.len();
                while t < holders
                    invariant
                        h < self.held_by@.len(),
                        holders == self.held_by@[h as int].1@.len(),
                        0 <= t <= holders,
                        forall|b: TransactionId|
                            #[trigger] spec_id_in(old(r)@, b) ==> spec_id_in(r@, b),
                        forall|h2: int, t2: int|
                            0 <= h2 < h && (#[trigger] self.held_by@[h2]).0@ == key@ && 0 <= t2
                                < self.held_by@[h2].1@.len() ==> spec_id_in(
                                r@,
                                #[trigger] self.held_by@[h2].1@[t2],
                            ),
                        forall|t2: int|
                            0 <= t2 < t ==> spec_id_in(
                                r@,
                                #[trigger] self.held_by@[h as int].1@[t2],
                            ),
                    decreases holders - t,
                {
                    let ghost prev = r@;
                    let cand = self.held_by[h].1[t];
                    if !id_list_contains(r, &cand) {
                        r.push(cand);
                        proof {
                            assert(r@[r@.len() - 1] == cand);
                        }
                    }
                    proof {
                        assert(spec_id_in(r@, cand));
                        assert forall|b: TransactionId| #[trigger] spec_id_in(prev, b)
                            implies spec_id_in(r@, b) by {
                            let x = choose|x: int| 0 <= x < prev.len() && prev[x] == b;
                            assert(r@[x] == b);
                        }
                    }
                    t += 1;
                }
            }
            h += 1;
        }
        proof {
            assert forall|b: TransactionId| spec_holds_res(*self, key@, b) implies spec_id_in(
                r@,
                b,
            ) by {
                let (h2, t2): (int, int) = choose|h2: int, t2: int|
                    0 <= h2 < self.held_view().len() && (#[trigger] self.held_view()[h2]).0@
                        == key@ && 0 <= t2 < self.held_view()[h2].1@.len() && (
                    #[trigger] self.held_view()[h2].1@[t2]) == b;
                assert(spec_id_in(r@, self.held_by@[h2].1@[t2]));
            }
        }
    }

    /// Every transaction one step beyond the frontier, gathered into one
    /// list.
    fn expand(&self, frontier: &Vec<TransactionId>) -> (next: Vec<TransactionId>)
        ensures
            forall|f: int, b: TransactionId|
                0 <= f < frontier@.len() && #[trigger] spec_edge(*self, frontier@[f], b)
                    ==> spec_id_in(next@, b),
    {
        let mut next: Vec<TransactionId> = Vec::new();
        let mut f: usize = 0;
        while f < frontier.len()
            invariant
                0 <= f <= frontier@.len(),
                forall|f2: int, b: TransactionId|
                    0 <= f2 < f && #[trigger] spec_edge(*self, frontier@[f2], b) ==> spec_id_in(
                        next@,
                        b,
                    ),
            decreases frontier@.len() - f,
        {
            let succ = self.successors(&frontier[f]);
            let mut q: usize = 0;
            while q < succ.len()
                invariant
                    0 <= q <= succ@.len(),
                    forall|f2: int, b: TransactionId|
                        0 <= f2 < f && #[trigger] spec_edge(*self, frontier@[f2], b)
                            ==> spec_id_in(next@, b),
                    forall|x: int| 0 <= x < q ==> spec_id_in(next@, #[trigger] succ@[x]),
                decreases succ@.len() - q,
            {
                let ghost prev = next@;
                let cand = succ[q];
                if !id_list_contains(&next, &cand) {
                    next.push(cand);
                    proof {
                        assert(next@[next@.len() - 1] == cand);
                    }
                }
                proof {
                    assert(spec_id_in(next@, cand));
                    assert forall|b: TransactionId| #[trigger] spec_id_in(prev, b)
                        implies spec_id_in(next@, b) by {
                        let x = choose|x: int| 0 <= x < prev.len() && prev[x] == b;
                        assert(next@[x] == b);
                    }
                }
                q += 1;
            }
            proof {
                assert forall|b: TransactionId| #[trigger] spec_edge(*self, frontier@[f as int], b)
                    implies spec_id_in(next@, b) by {
                    assert(spec_id_in(succ@, b));
                    let x = choose|x: int| 0 <= x < succ@.len() && succ@[x] == b;
                    assert(spec_id_in(next@, succ@[x]));
                }
            }
            f += 1;
        }
        next
    }

    /// Whether the wait-for graph reaches `target` from `start` within as
    /// many steps as there are waiting transactions. A direct edge or a
    /// two-step trail is always found.
    fn reaches(&self, start: &TransactionId, target: &TransactionId) -> (r: bool)
        ensures
            spec_edge(*self, *start, *target) ==> r,
            (exists|x: TransactionId|
                spec_edge(*self, *start, x) && spec_edge(*self, x, *target)) ==> r,
    {
        let first = self.successors(start);
        if id_list_contains(&first, target) {
            return true;
        }
        let second = self.expand(&first);
        if id_list_contains(&second, target) {
            return true;
        }
        proof {
            assert(!spec_edge(*self, *start, *target)) by {
                if spec_edge(*self, *start, *target) {
                    assert(spec_id_in(first@, *target));
                    let x = choose|x: int| 0 <= x < first@.len() && first@[x] == *target;
                }
            }
            assert(!(exists|x: TransactionId|
                spec_edge(*self, *start, x) && spec_edge(*self, x, *target))) by {
                if exists|x: TransactionId|
                    spec_edge(*self, *start, x) && spec_edge(*self, x, *target) {
                    let x = choose|x: TransactionId|
                        #[trigger] spec_edge(*self, *start, x) && spec_edge(*self, x, *target);
                    assert(spec_id_in(first@, x));
                    let fx = choose|fx: int| 0 <= fx < first@.len() && first@[fx] == x;
                    assert(spec_edge(*self, first@[fx], *target));
                    assert(spec_id_in(second@, *target));
                    let y = choose|y: int| 0 <= y < second@.len() && second@[y] == *target;
                }
            }
        }
        let mut frontier = second;
        let mut level: usize = 0;
        let bound = self.wait_for.len();
        while level < bound
            invariant
                0 <= level <= bound,
            decreases bound - level,
        {
            if id_list_contains(&frontier, target) {
                return true;
            }
            frontier = self.expand(&frontier);
            level += 1;
        }
        id_list_contains(&frontier, target)
    }

    /// Reports the waiting transactions that the bounded wait-for search
    /// finds back on their own trail. Every reported transaction is waiting
    /// for some resource right now, and any one- or two-transaction cycle in
    /// the graph forces a non-empty report.
    pub fn detect_cycles(&self) -> (r: Vec<TransactionId>)
        requires
            self.wf(),
        ensures
            forall|k: int|
                0 <= k < r@.len() ==> spec_is_waiting(self.waits_view(), #[trigger] r@[k]),
            forall|a: TransactionId, b: TransactionId|
                #[trigger] spec_edge(*self, a, b) && spec_edge(*self, b, a) ==> r@.len() > 0,
    {
        let mut r: Vec<TransactionId> = Vec::new();
        let mut i: usize = 0;
        while i < self.wait_for.len()
            invariant
                self.wf(),
                0 <= i <= self.wait_for@.len(),
                forall|k: int|
                    0 <= k < r@.len() ==> spec_is_waiting(self.waits_view(), #[trigger] r@[k]),
                forall|w: int, b: TransactionId|
                    0 <= w < i && #[trigger] spec_edge(*self, self.waits_view()[w].0, b)
                        && spec_edge(*self, b, self.waits_view()[w].0) ==> r@.len() > 0,
            decreases self.wait_for@.len() - i,
        {
            let candidate = self.wait_for[i].0;
            let waiting = self.wait_for[i].1.len() > 0;
            let found = waiting && self.reaches(&candidate, &candidate);
            if found {
                if !id_list_contains(&r, &candidate) {
                    proof {
                        assert(self.waits_view()[i as int].0 == candidate
                            && self.waits_view()[i as int].1@.len() > 0);
                        assert(spec_is_waiting(self.waits_view(), candidate));
                    }
                    r.push(candidate);
                    proof {
                        assert(r@[r@.len() - 1] == candidate);
                    }
                }
                proof {
                    assert(r@.len() > 0);
                }
            }
            proof {
                assert forall|w: int, b: TransactionId|
                    0 <= w < i + 1 && #[trigger] spec_edge(*self, self.waits_view()[w].0, b)
                        && spec_edge(*self, b, self.waits_view()[w].0) implies r@.len() > 0 by {
                    if w == i && r@.len() == 0 {
                        let k = choose|k: Seq<u8>|
                            #[trigger] spec_waits_for(*self, candidate, k) && spec_holds_res(
                                *self,
                                k,
                                b,
                            );
                        let (i2, j2): (int, int) = choose|i2: int, j2: int|
                            0 <= i2 < self.waits_view().len() && (
                            #[trigger] self.waits_view()[i2]).0 == candidate && 0 <= j2
                                < self.waits_view()[i2].1@.len() && (
                            #[trigger] self.waits_view()[i2].1@[j2])@ == k;
                        assert(i2 == i) by {
                            if i2 != i {
                                assert(self.wait_for@[if i2 < i {
                                    i2
                                } else {
                                    i as int
                                }].0 != self.wait_for@[if i2 < i {
                                    i as int
                                } else {
                                    i2
                                }].0);
                            }
                        }
                        assert(self.wait_for@[i as int].1@.len() > 0);
                        assert(waiting);
                        assert(found);
                    }
                }
            }
            i += 1;
        }
        r
    }
}

/// Extending one transaction's wait list with a resource adds exactly that
/// edge.
proof fn lemma_wait_entry_extended(
    pre: Seq<(TransactionId, Vec<Vec<u8>>)>,
    post: Seq<(TransactionId, Vec<Vec<u8>>)>,
    i: int,
    tx: TransactionId,
    res: Seq<u8>,
)
    requires
        0 <= i < pre.len(),
        post.len() == pre.len(),
        forall|a: int, b: int| 0 <= a < b < pre.len() ==> (#[trigger] pre[a]).0 != (
        #[trigger] pre[b]).0,
        pre[i].0 == tx,
        post[i].0 == tx,
        post[i].1@.len() == pre[i].1@.len() + 1,
        forall|b: int| 0 <= b < pre[i].1@.len() ==> (#[trigger] post[i].1@[b])@ == pre[i].1@[b]@,
        post[i].1@.last()@ == res,
        forall|j: int| 0 <= j < pre.len() && j != i ==> post[j] == pre[j],
    ensures
        forall|a: int, b: int| 0 <= a < b < post.len() ==> (#[trigger] post[a]).0 != (
        #[trigger] post[b]).0,
        forall|t: TransactionId, r2: Seq<u8>|
            spec_waits(post, t, r2) == (spec_waits(pre, t, r2) || (t == tx && r2 == res)),
{
    assert forall|a: int, b: int| 0 <= a < b < post.len() implies (#[trigger] post[a]).0 != (
    #[trigger] post[b]).0 by {
        assert(post[a].0 == pre[a].0 && post[b].0 == pre[b].0);
    }
    assert forall|t: TransactionId, r2: Seq<u8>|
        spec_waits(post, t, r2) == (spec_waits(pre, t, r2) || (t == tx && r2 == res)) by {
        if spec_waits(post, t, r2) {
            let (a, b): (int, int) = choose|a: int, b: int|
                0 <= a < post.len() && (#[trigger] post[a]).0 == t && 0 <= b < post[a].1@.len()
                    && (#[trigger] post[a].1@[b])@ == r2;
            if a != i {
                assert(pre[a].0 == t && pre[a].1@[b]@ == r2);
            } else if b < pre[i].1@.len() {
                assert(pre[i].0 == t && pre[i].1@[b]@ == r2);
            } else {
                assert(post[i].1@[b]@ == res);
            }
        }
        if spec_waits(pre, t, r2) {
            let (a, b): (int, int) = choose|a: int, b: int|
                0 <= a < pre.len() && (#[trigger] pre[a]).0 == t && 0 <= b < pre[a].1@.len()
                    && (#[trigger] pre[a].1@[b])@ == r2;
            if a == i {
                assert(post[i].0 == t && post[i].1@[b]@ == r2);
            } else {
                assert(post[a].0 == t && post[a].1@[b]@ == r2);
            }
        }
        if t == tx && r2 == res {
            assert(post[i].0 == t && post[i].1@[post[i].1@.len() - 1]@ == r2);
        }
    }
}

/// Filtering one transaction's wait list removes exactly that edge; the
/// entry's transaction is the only one carrying it.
proof fn lemma_wait_entry_filtered(
    pre: Seq<(TransactionId, Vec<Vec<u8>>)>,
    post: Seq<(TransactionId, Vec<Vec<u8>>)>,
    i: int,
    tx: TransactionId,
    res: Seq<u8>,
    kept: Seq<Vec<u8>>,
)
    requires
        0 <= i < pre.len(),
        post.len() == pre.len(),
        forall|a: int, b: int| 0 <= a < b < pre.len() ==> (#[trigger] pre[a]).0 != (
        #[trigger] pre[b]).0,
        pre[i].0 == tx,
        post[i].0 == tx,
        post[i].1@ == kept,
        forall|x: int| 0 <= x < kept.len() ==> (#[trigger] kept[x])@ != res,
        forall|y: int|
            0 <= y < pre[i].1@.len() && (#[trigger] pre[i].1@[y])@ != res ==> exists|x: int|
                0 <= x < kept.len() && (#[trigger] kept[x])@ == pre[i].1@[y]@,
        forall|j: int| 0 <= j < pre.len() && j != i ==> post[j] == pre[j],
    ensures
        forall|a: int, b: int| 0 <= a < b < post.len() ==> (#[trigger] post[a]).0 != (
        #[trigger] post[b]).0,
        !spec_waits(post, tx, res),
        forall|t: TransactionId, r2: Seq<u8>|
            spec_waits(pre, t, r2) && !(t == tx && r2 == res) ==> spec_waits(post, t, r2),
{
    assert forall|a: int, b: int| 0 <= a < b < post.len() implies (#[trigger] post[a]).0 != (
    #[trigger] post[b]).0 by {
        assert(post[a].0 == pre[a].0 && post[b].0 == pre[b].0);
    }
    assert(!spec_waits(post, tx, res)) by {
        if spec_waits(post, tx, res) {
            let (a, b): (int, int) = choose|a: int, b: int|
                0 <= a < post.len() && (#[trigger] post[a]).0 == tx && 0 <= b
                    < post[a].1@.len() && (#[trigger] post[a].1@[b])@ == res;
            if a == i {
                assert(kept[b]@ != res);
            } else {
                assert(pre[a].0 == tx);
                assert(pre[if a < i {
                    a
                } else {
                    i
                }].0 != pre[if a < i {
                    i
                } else {
                    a
                }].0);
            }
        }
    }
    assert forall|t: TransactionId, r2: Seq<u8>|
        spec_waits(pre, t, r2) && !(t == tx && r2 == res) implies spec_waits(post, t, r2) by {
        let (a, b): (int, int) = choose|a: int, b: int|
            0 <= a < pre.len() && (#[trigger] pre[a]).0 == t && 0 <= b < pre[a].1@.len() && (
            #[trigger] pre[a].1@[b])@ == r2;
        if a != i {
            assert(post[a].0 == t && post[a].1@[b]@ == r2);
        } else {
            assert(t == tx);
            assert(r2 != res);
            assert(pre[i].1@[b]@ != res);
            let x = choose|x: int| 0 <= x < kept.len() && (#[trigger] kept[x])@ == pre[i].1@[b]@;
            assert(post[i].0 == t && post[i].1@[x]@ == r2);
        }
    }
}

/// Extending one resource's holder list adds exactly that edge.
proof fn lemma_hold_entry_extended(
    pre: Seq<(Vec<u8>, Vec<TransactionId>)>,
    post: Seq<(Vec<u8>, Vec<TransactionId>)>,
    i: int,
    res: Seq<u8>,
    tx: TransactionId,
)
    requires
        0 <= i < pre.len(),
        post.len() == pre.len(),
        forall|a: int, b: int| 0 <= a < b < pre.len() ==> (#[trigger] pre[a]).0@ != (
        #[trigger] pre[b]).0@,
        pre[i].0@ == res,
        post[i].0@ == res,
        post[i].1@.len() == pre[i].1@.len() + 1,
        forall|b: int| 0 <= b < pre[i].1@.len() ==> (#[trigger] post[i].1@[b]) == pre[i].1@[b],
        post[i].1@.last() == tx,
        forall|j: int| 0 <= j < pre.len() && j != i ==> post[j] == pre[j],
    ensures
        forall|a: int, b: int| 0 <= a < b < post.len() ==> (#[trigger] post[a]).0@ != (
        #[trigger] post[b]).0@,
        forall|r2: Seq<u8>, t: TransactionId|
            spec_held(post, r2, t) == (spec_held(pre, r2, t) || (r2 == res && t == tx)),
{
    assert forall|a: int, b: int| 0 <= a < b < post.len() implies (#[trigger] post[a]).0@ != (
    #[trigger] post[b]).0@ by {
        assert(post[a].0@ == pre[a].0@ && post[b].0@ == pre[b].0@);
    }
    assert forall|r2: Seq<u8>, t: TransactionId|
        spec_held(post, r2, t) == (spec_held(pre, r2, t) || (r2 == res && t == tx)) by {
        if spec_held(post, r2, t) {
            let (a, b): (int, int) = choose|a: int, b: int|
                0 <= a < post.len() && (#[trigger] post[a]).0@ == r2 && 0 <= b
                    < post[a].1@.len() && (#[trigger] post[a].1@[b]) == t;
            if a != i {
                assert(pre[a].0@ == r2 && pre[a].1@[b] == t);
            } else if b < pre[i].1@.len() {
                assert(pre[i].0@ == r2 && pre[i].1@[b] == t);
            } else {
                assert(post[i].1@[b] == tx);
            }
        }
        if spec_held(pre, r2, t) {
            let (a, b): (int, int) = choose|a: int, b: int|
                0 <= a < pre.len() && (#[trigger] pre[a]).0@ == r2 && 0 <= b < pre[a].1@.len()
                    && (#[trigger] pre[a].1@[b]) == t;
            if a == i {
                assert(post[i].0@ == r2 && post[i].1@[b] == t);
            } else {
                assert(post[a].0@ == r2 && post[a].1@[b] == t);
            }
        }
        if r2 == res && t == tx {
            assert(post[i].0@ == r2 && post[i].1@[post[i].1@.len() - 1] == t);
        }
    }
}

/// Filtering one resource's holder list removes exactly that edge.
proof fn lemma_hold_entry_filtered(
    pre: Seq<(Vec<u8>, Vec<TransactionId>)>,
    post: Seq<(Vec<u8>, Vec<TransactionId>)>,
    i: int,
    res: Seq<u8>,
    tx: TransactionId,
    kept: Seq<TransactionId>,
)
    requires
        0 <= i < pre.len(),
        post.len() == pre.len(),
        forall|a: int, b: int| 0 <= a < b < pre.len() ==> (#[trigger] pre[a]).0@ != (
        #[trigger] pre[b]).0@,
        pre[i].0@ == res,
        post[i].0@ == res,
        post[i].1@ == kept,
        forall|x: int| 0 <= x < kept.len() ==> (#[trigger] kept[x]) != tx,
        forall|y: int|
            0 <= y < pre[i].1@.len() && (#[trigger] pre[i].1@[y]) != tx ==> exists|x: int|
                0 <= x < kept.len() && (#[trigger] kept[x]) == pre[i].1@[y],
        forall|j: int| 0 <= j < pre.len() && j != i ==> post[j] == pre[j],
    ensures
        forall|a: int, b: int| 0 <= a < b < post.len() ==> (#[trigger] post[a]).0@ != (
        #[trigger] post[b]).0@,
        !spec_held(post, res, tx),
        forall|r2: Seq<u8>, t: TransactionId|
            spec_held(pre, r2, t) && !(r2 == res && t == tx) ==> spec_held(post, r2, t),
{
    assert forall|a: int, b: int| 0 <= a < b < post.len() implies (#[trigger] post[a]).0@ != (
    #[trigger] post[b]).0@ by {
        assert(post[a].0@ == pre[a].0@ && post[b].0@ == pre[b].0@);
    }
    assert(!spec_held(post, res, tx)) by {
        if spec_held(post, res, tx) {
            let (a, b): (int, int) = choose|a: int, b: int|
                0 <= a < post.len() && (#[trigger] post[a]).0@ == res && 0 <= b
                    < post[a].1@.len() && (#[trigger] post[a].1@[b]) == tx;
            if a == i {
                assert(kept[b] != tx);
            } else {
                assert(pre[a].0@ == res);
                assert(pre[if a < i {
                    a
                } else {
                    i
                }].0@ != pre[if a < i {
                    i
                } else {
                    a
                }].0@);
            }
        }
    }
    assert forall|r2: Seq<u8>, t: TransactionId|
        spec_held(pre, r2, t) && !(r2 == res && t == tx) implies spec_held(post, r2, t) by {
        let (a, b): (int, int) = choose|a: int, b: int|
            0 <= a < pre.len() && (#[trigger] pre[a]).0@ == r2 && 0 <= b < pre[a].1@.len() && (
            #[trigger] pre[a].1@[b]) == t;
        if a != i {
            assert(post[a].0@ == r2 && post[a].1@[b] == t);
        } else {
            assert(r2 == res);
            assert(t != tx);
            assert(pre[i].1@[b] != tx);
            let x = choose|x: int| 0 <= x < kept.len() && (#[trigger] kept[x]) == pre[i].1@[b];
            assert(post[i].0@ == r2 && post[i].1@[x] == t);
        }
    }
}


/// The byte lists with one value filtered out: no kept element carries the
/// resource, every other element survives, and nothing new appears.
fn filter_bytes(list: &Vec<Vec<u8>>, resource: &[u8]) -> (kept: Vec<Vec<u8>>)
    ensures
        forall|x: int| 0 <= x < kept@.len() ==> (#[trigger] kept@[x])@ != resource@,
        forall|y: int|
            0 <= y < list@.len() && (#[trigger] list@[y])@ != resource@ ==> exists|x: int|
                0 <= x < kept@.len() && (#[trigger] kept@[x])@ == list@[y]@,
{
    let mut kept: Vec<Vec<u8>> = Vec::new();
    let mut j: usize = 0;
    while j < list.len()
        invariant
            0 <= j <= list@.len(),
            forall|x: int| 0 <= x < kept@.len() ==> (#[trigger] kept@[x])@ != resource@,
            forall|y: int|
                0 <= y < j && (#[trigger] list@[y])@ != resource@ ==> exists|x: int|
                    0 <= x < kept@.len() && (#[trigger] kept@[x])@ == list@[y]@,
        decreases list@.len() - j,
    {
        let ghost prev_kept = kept@;
        if !crate::util::bytes_eq(list[j].as_slice(), resource) {
            let mut copied: Vec<u8> = Vec::new();
            crate::util::extend_bytes(&mut copied, list[j].as_slice());
            proof {
                assert(copied@ =~= list@[j as int]@);
            }
            kept.push(copied);
            proof {
                assert(kept@[kept@.len() - 1]@ == list@[j as int]@);
                assert forall|y: int|
                    0 <= y < j + 1 && (#[trigger] list@[y])@ != resource@ implies exists|x: int|
                    0 <= x < kept@.len() && (#[trigger] kept@[x])@ == list@[y]@ by {
                    if y < j {
                        let x = choose|x: int|
                            0 <= x < prev_kept.len() && (#[trigger] prev_kept[x])@ == list@[y]@;
                        assert(kept@[x]@ == list@[y]@);
                    } else {
                        assert(kept@[kept@.len() - 1]@ == list@[y]@);
                    }
                }
            }
        }
        j += 1;
    }
    kept
}

/// The identifier list with one value filtered out.
fn filter_ids(list: &Vec<TransactionId>, out: &TransactionId) -> (kept: Vec<TransactionId>)
    ensures
        forall|x: int| 0 <= x < kept@.len() ==> (#[trigger] kept@[x]) != *out,
        forall|y: int|
            0 <= y < list@.len() && (#[trigger] list@[y]) != *out ==> exists|x: int|
                0 <= x < kept@.len() && (#[trigger] kept@[x]) == list@[y],
{
    let mut kept: Vec<TransactionId> = Vec::new();
    let mut j: usize = 0;
    while j < list.len()
        invariant
            0 <= j <= list@.len(),
            forall|x: int| 0 <= x < kept@.len() ==> (#[trigger] kept@[x]) != *out,
            forall|y: int|
                0 <= y < j && (#[trigger] list@[y]) != *out ==> exists|x: int|
                    0 <= x < kept@.len() && (#[trigger] kept@[x]) == list@[y],
        decreases list@.len() - j,
    {
        let ghost prev_kept = kept@;
        if !(list[j] == *out) {
            kept.push(list[j]);
            proof {
                assert(kept@[kept@.len() - 1] == list@[j as int]);
                assert forall|y: int|
                    0 <= y < j + 1 && (#[trigger] list@[y]) != *out implies exists|x: int|
                    0 <= x < kept@.len() && (#[trigger] kept@[x]) == list@[y] by {
                    if y < j {
                        let x = choose|x: int|
                            0 <= x < prev_kept.len() && (#[trigger] prev_kept[x]) == list@[y];
                        assert(kept@[x] == list@[y]);
                    } else {
                        assert(kept@[kept@.len() - 1] == list@[y]);
                    }
                }
            }
        }
        j += 1;
    }
    kept
}

/// Whether a transaction list holds an identifier.
fn id_list_contains(v: &Vec<TransactionId>, x: &TransactionId) -> (r: bool)
    ensures
        r == exists|i: int| 0 <= i < v@.len() && (#[trigger] v@[i]) == *x,
{
    let mut i: usize = 0;
    while i < v.len()
        invariant
            0 <= i <= v@.len(),
            forall|j: int| 0 <= j < i ==> (#[trigger] v@[j]) != *x,
        decreases v@.len() - i,
    {
        if v[i] == *x {
            return true;
        }
        i += 1;
    }
    false
}

/// The lock manager: per-key granted locks and wait queues, plus the keys
/// each transaction holds.
#[derive(Debug)]
pub struct LockManager {
    resource_locks: Vec<(Vec<u8>, ResourceLocks)>,
    transaction_locks: Vec<(TransactionId, Vec<Vec<u8>>)>,
    deadlock_detector: DeadlockDetector,
    lock_timeout_ms: u64,
}

impl LockManager {
    /// Each key has at most one entry.
    pub closed spec fn keys_unique(&self) -> bool {
        forall|i: int, j: int|
            0 <= i < j < self.resource_locks@.len() ==> (#[trigger] self.resource_locks@[i]).0@
                != (#[trigger] self.resource_locks@[j]).0@
    }

    /// Every key's granted locks are compatible: an exclusive lock never
    /// coexists with another transaction's lock.
    pub closed spec fn wf(&self) -> bool {
        &&& self.keys_unique()
        &&& forall|i: int|
            0 <= i < self.resource_locks@.len() ==> locks_compatible(
                lock_views((#[trigger] self.resource_locks@[i]).1.locks@),
            )
        &&& self.deadlock_detector.wf()
    }

    /// The granted locks on a key, by mode and holder.
    pub closed spec fn key_lock_views(&self, k: Seq<u8>) -> Seq<(LockMode, TransactionId)> {
        if exists|i: int| 0 <= i < self.resource_locks@.len() && (
        #[trigger] self.resource_locks@[i]).0@ == k {
            lock_views(
                self.resource_locks@[choose|i: int|
                    0 <= i < self.resource_locks@.len() && (#[trigger] self.resource_locks@[i]).0@
                        == k].1.locks@,
            )
        } else {
            Seq::empty()
        }
    }

    /// The queued requests on a key, by mode and requester, oldest first.
    pub closed spec fn key_wait_views(&self, k: Seq<u8>) -> Seq<(LockMode, TransactionId)> {
        if exists|i: int| 0 <= i < self.resource_locks@.len() && (
        #[trigger] self.resource_locks@[i]).0@ == k {
            queue_views(
                self.resource_locks@[choose|i: int|
                    0 <= i < self.resource_locks@.len() && (#[trigger] self.resource_locks@[i]).0@
                        == k].1.wait_queue@,
            )
        } else {
            Seq::empty()
        }
    }

    /// A fresh lock manager with no keys and a ten-second timeout.
    pub fn new() -> (r: Self)
        ensures
            r.wf(),
            forall|k: Seq<u8>| r.key_lock_views(k) == Seq::<(LockMode, TransactionId)>::empty(),
    {
        LockManager {
            resource_locks: Vec::new(),
            transaction_locks: Vec::new(),
            deadlock_detector: DeadlockDetector::new(),
            lock_timeout_ms: 10000,
        }
    }

    /// Acquires a shared lock for a read, or queues the request.
    pub fn acquire_read_lock(&mut self, key: &[u8], transaction_id: &TransactionId) -> (granted:
        bool)
        requires
            old(self).wf(),
        ensures
            final(self).wf(),
            granted == spec_can_grant(
                old(self).key_lock_views(key@),
                LockMode::Shared,
                *transaction_id,
            ),
            granted ==> final(self).key_lock_views(key@) == old(self).key_lock_views(key@).push(
                (LockMode::Shared, *transaction_id),
            ),
            !granted ==> final(self).key_lock_views(key@) == old(self).key_lock_views(key@),
            forall|k2: Seq<u8>|
                k2 != key@ ==> final(self).key_lock_views(k2) == old(self).key_lock_views(k2),
    {
        self.acquire_lock(key, transaction_id, LockMode::Shared)
    }

    /// Acquires an exclusive lock for a write, or queues the request.
    pub fn acquire_write_lock(&mut self, key: &[u8], transaction_id: &TransactionId) -> (granted:
        bool)
        requires
            old(self).wf(),
        ensures
            final(self).wf(),
            granted == spec_can_grant(
                old(self).key_lock_views(key@),
                LockMode::Exclusive,
                *transaction_id,
            ),
            granted ==> final(self).key_lock_views(key@) == old(self).key_lock_views(key@).push(
                (LockMode::Exclusive, *transaction_id),
            ),
            !granted ==> final(self).key_lock_views(key@) == old(self).key_lock_views(key@),
            forall|k2: Seq<u8>|
                k2 != key@ ==> final(self).key_lock_views(k2) == old(self).key_lock_views(k2),
    {
        self.acquire_lock(key, transaction_id, LockMode::Exclusive)
    }

    /// Decides one acquisition: a compatible request is granted at once, an
    /// incompatible one joins the key's FIFO wait queue. The caller waits and
    /// retries when queued.
    #[verifier::rlimit(100)]
    #[verifier::spinoff_prover]
    pub fn acquire_lock(&mut self, key: &[u8], transaction_id: &TransactionId, mode: LockMode) -> (
    granted: bool)
        requires
            old(self).wf(),
        ensures
            final(self).wf(),
            granted == spec_can_grant(old(self).key_lock_views(key@), mode, *transaction_id),
            granted ==> final(self).key_lock_views(key@) == old(self).key_lock_views(key@).push(
                (mode, *transaction_id),
            ),
            !granted ==> final(self).key_lock_views(key@) == old(self).key_lock_views(key@),
            forall|k2: Seq<u8>|
                k2 != key@ ==> final(self).key_lock_views(k2) == old(self).key_lock_views(k2),
    {
        let ghost pre = *old(self);
        let idx_opt = self.find_key(key);
        let idx: usize;
        match idx_opt {
            Some(found) => {
                idx = found;
            },
            None => {
                idx = self.resource_locks.len();
                let mut key_vec: Vec<u8> = Vec::new();
                crate::util::extend_bytes(&mut key_vec, key);
                self.resource_locks.push((key_vec, ResourceLocks::new()));
                proof {
                    assert(self.resource_locks@[idx as int].0@ == key@);
                    assert forall|i: int, j: int|
                        0 <= i < j < self.resource_locks@.len() implies (
                    #[trigger] self.resource_locks@[i]).0@ != (
                    #[trigger] self.resource_locks@[j]).0@ by {
                        if j < idx {
                            assert(pre.resource_locks@[i].0@ != pre.resource_locks@[j].0@);
                        }
                    }
                    lemma_km_lookup(*self, idx as int);
                    assert(self.key_lock_views(key@) =~= lock_views(
                        self.resource_locks@[idx as int].1.locks@,
                    ));
                    assert(self.key_lock_views(key@) =~= pre.key_lock_views(key@)) by {
                        assert(lock_views(self.resource_locks@[idx as int].1.locks@) =~= Seq::<(
                            LockMode,
                            TransactionId,
                        )>::empty());
                        assert(!(exists|i: int|
                            0 <= i < pre.resource_locks@.len() && (
                            #[trigger] pre.resource_locks@[i]).0@ == key@));
                    }
                    assert forall|k2: Seq<u8>| k2 != key@ implies self.key_lock_views(k2) == pre
                        .key_lock_views(k2) by {
                        lemma_km_frame(pre, *self, idx as int, k2);
                    }
                    assert forall|i: int| 0 <= i < self.resource_locks@.len() implies
                        locks_compatible(lock_views(
                            (#[trigger] self.resource_locks@[i]).1.locks@,
                        )) by {
                        if i < idx {
                            assert(self.resource_locks@[i] == pre.resource_locks@[i]);
                        }
                    }
                }
            },
        }
        let ghost mid = *self;
        let mut entry = self.resource_locks.remove(idx);
        let can = entry.1.can_grant(&mode, transaction_id);
        let granted: bool;
        if can {
            entry.1.grant_lock(*transaction_id, mode);
            granted = true;
        } else {
            entry.1.wait_queue.push(LockRequest::new(*transaction_id, mode));
            granted = false;
        }
        let ghost entry_after = entry;
        self.resource_locks.insert(idx, entry);
        if granted {
            self.track_key(transaction_id, key);
            self.deadlock_detector.add_hold_edge(*transaction_id, key);
        } else {
            self.deadlock_detector.add_wait_edge(*transaction_id, key);
        }
        proof {
            assert(self.resource_locks@.len() == mid.resource_locks@.len());
            assert(self.resource_locks@[idx as int].0@ == key@);
            assert(self.resource_locks@[idx as int].1 == entry_after.1);
            assert forall|j: int|
                0 <= j < self.resource_locks@.len() && j != idx implies self.resource_locks@[j]
                == mid.resource_locks@[j] by {}
            assert forall|i: int, j: int|
                0 <= i < j < self.resource_locks@.len() implies (
            #[trigger] self.resource_locks@[i]).0@ != (#[trigger] self.resource_locks@[j]).0@ by {
                assert(mid.resource_locks@[i].0@ != mid.resource_locks@[j].0@);
            }
            lemma_km_lookup(mid, idx as int);
            lemma_km_lookup(*self, idx as int);
            assert(mid.key_lock_views(key@) == pre.key_lock_views(key@));
            if granted {
                lemma_grant_keeps_compatible(
                    lock_views(mid.resource_locks@[idx as int].1.locks@),
                    mode,
                    *transaction_id,
                );
            }
            assert forall|i: int| 0 <= i < self.resource_locks@.len() implies locks_compatible(
                lock_views((#[trigger] self.resource_locks@[i]).1.locks@),
            ) by {
                if i != idx {
                    assert(self.resource_locks@[i] == mid.resource_locks@[i]);
                }
            }
            assert forall|k2: Seq<u8>| k2 != key@ implies self.key_lock_views(k2) == mid
                .key_lock_views(k2) by {
                lemma_km_frame(mid, *self, idx as int, k2);
            }
        }
        granted
    }

    /// The index of a key's entry.
    fn find_key(&self, key: &[u8]) -> (r: Option<usize>)
        requires
            self.keys_unique(),
        ensures
            r matches Some(i) ==> i < self.resource_locks@.len() && self.resource_locks@[
                i as int].0@ == key@,
            r is None ==> !(exists|i: int|
                0 <= i < self.resource_locks@.len() && (#[trigger] self.resource_locks@[i]).0@
                    == key@),
    {
        let mut i: usize = 0;
        while i < self.resource_locks.len()
            invariant
                0 <= i <= self.resource_locks@.len(),
                forall|j: int|
                    0 <= j < i ==> (#[trigger] self.resource_locks@[j]).0@ != key@,
            decreases self.resource_locks@.len() - i,
        {
            if crate::util::bytes_eq(self.resource_locks[i].0.as_slice(), key) {
                return Some(i);
            }
            i += 1;
        }
        None
    }

    /// Remembers that a transaction holds a lock on a key.
    fn track_key(&mut self, transaction_id: &TransactionId, key: &[u8])
        ensures
            final(self).resource_locks == old(self).resource_locks,
            final(self).lock_timeout_ms == old(self).lock_timeout_ms,
            final(self).deadlock_detector == old(self).deadlock_detector,
    {
        let mut i: usize = 0;
        let n = self.transaction_locks.len();
        while i < n
            invariant
                0 <= i <= n,
                n == self.transaction_locks@.len(),
                self.resource_locks == old(self).resource_locks,
                self.lock_timeout_ms == old(self).lock_timeout_ms,
                self.deadlock_detector == old(self).deadlock_detector,
            decreases n - i,
        {
            if self.transaction_locks[i].0 == *transaction_id {
                let mut entry = self.transaction_locks.remove(i);
                let mut key_vec: Vec<u8> = Vec::new();
                crate::util::extend_bytes(&mut key_vec, key);
                entry.1.push(key_vec);
                self.transaction_locks.insert(i, entry);
                return;
            }
            i += 1;
        }
        let mut key_vec: Vec<u8> = Vec::new();
        crate::util::extend_bytes(&mut key_vec, key);
        let mut keys: Vec<Vec<u8>> = Vec::new();
        keys.push(key_vec);
        self.transaction_locks.push((*transaction_id, keys));
    }

    /// Releases every lock a transaction holds on a key and drops its queued
    /// requests there, then grants as many compatible queued requests as
    /// possible, oldest first; the granted transactions are returned so their
    /// waits can be resumed.
    #[verifier::rlimit(100)]
    #[verifier::spinoff_prover]
    pub fn release_lock(&mut self, key: &[u8], transaction_id: &TransactionId) -> (granted: Vec<
        TransactionId,
    >)
        requires
            old(self).wf(),
        ensures
            final(self).wf(),
            !spec_holds(final(self).key_lock_views(key@), *transaction_id),
            forall|t: TransactionId|
                t != *transaction_id && spec_holds(old(self).key_lock_views(key@), t)
                    ==> spec_holds(final(self).key_lock_views(key@), t),
            granted@.len() <= spec_waiters(*old(self), key@, *transaction_id).len(),
            final(self).key_wait_views(key@) == spec_waiters(*old(self), key@, *transaction_id)
                .skip(granted@.len() as int),
            forall|g: int|
                0 <= g < granted@.len() ==> granted@[g] == spec_waiters(*old(self), key@,
                    *transaction_id)[g].1,
            forall|g: int|
                0 <= g < granted@.len() ==> spec_holds(final(self).key_lock_views(key@),
                    #[trigger] granted@[g]),
            granted@.len() < spec_waiters(*old(self), key@, *transaction_id).len()
                ==> !spec_can_grant(
                final(self).key_lock_views(key@),
                spec_waiters(*old(self), key@, *transaction_id)[granted@.len() as int].0,
                spec_waiters(*old(self), key@, *transaction_id)[granted@.len() as int].1,
            ),
            forall|k2: Seq<u8>|
                k2 != key@ ==> final(self).key_lock_views(k2) == old(self).key_lock_views(k2),
            forall|k2: Seq<u8>|
                k2 != key@ ==> final(self).key_wait_views(k2) == old(self).key_wait_views(k2),
    {
        let ghost pre = *old(self);
        let idx_opt = self.find_key(key);
        let idx = match idx_opt {
            Some(found) => found,
            None => {
                let granted: Vec<TransactionId> = Vec::new();
                proof {
                    assert(!(exists|i: int|
                        0 <= i < self.resource_locks@.len() && (
                        #[trigger] self.resource_locks@[i]).0@ == key@));
                    assert(self.key_lock_views(key@) =~= Seq::<(LockMode, TransactionId)>::empty());
                    assert(self.key_wait_views(key@) =~= Seq::<(LockMode, TransactionId)>::empty());
                    assert(!spec_holds(self.key_lock_views(key@), *transaction_id));
                    assert(spec_waiters(pre, key@, *transaction_id) =~= Seq::<(
                        LockMode,
                        TransactionId,
                    )>::empty());
                }
                return granted;
            },
        };
        let mut entry = self.resource_locks.remove(idx);
        proof {
            lemma_km_lookup(pre, idx as int);
        }
        let had = entry.1.release_lock(transaction_id);
        let _ = had;
        entry.1.purge_requests(transaction_id);
        let ghost q = spec_waiters(pre, key@, *transaction_id);
        proof {
            lemma_filter_compatible(
                lock_views(pre.resource_locks_view()[idx as int].1.locks@),
                |lv: (LockMode, TransactionId)| lv.1 != *transaction_id,
            );
            lemma_waiters_ne(pre.key_wait_views(key@), *transaction_id);
            assert(queue_views(entry.1.wait_queue@) == q);
            assert(q.skip(0) =~= q);
            let flvs = lock_views(entry.1.locks@);
            assert forall|i: int| 0 <= i < flvs.len() implies (#[trigger] flvs[i]).1
                != *transaction_id by {
                assert(flvs.contains(flvs[i]));
            }
            assert(!spec_holds(flvs, *transaction_id)) by {
                if spec_holds(flvs, *transaction_id) {
                    let h = choose|h: int| 0 <= h < flvs.len() && flvs[h].1 == *transaction_id;
                    assert(flvs[h].1 != *transaction_id);
                }
            }
            assert forall|t: TransactionId|
                t != *transaction_id && spec_holds(pre.key_lock_views(key@), t) implies spec_holds(
                flvs,
                t,
            ) by {
                let pvs = pre.key_lock_views(key@);
                let i = choose|i: int| 0 <= i < pvs.len() && pvs[i].1 == t;
                assert(pvs.contains(pvs[i]));
                assert(flvs.contains(pvs[i]));
                let j = choose|j: int| 0 <= j < flvs.len() && flvs[j] == pvs[i];
                assert(flvs[j].1 == t);
            }
        }
        let mut granted: Vec<TransactionId> = Vec::new();
        proof {
            assert(entry.0@ == key@);
        }
        loop
            invariant
                entry.0@ == key@,
                q == spec_waiters(pre, key@, *transaction_id),
                forall|i: int| 0 <= i < q.len() ==> (#[trigger] q[i]).1 != *transaction_id,
                locks_compatible(lock_views(entry.1.locks@)),
                !spec_holds(lock_views(entry.1.locks@), *transaction_id),
                granted@.len() <= q.len(),
                queue_views(entry.1.wait_queue@) == q.skip(granted@.len() as int),
                forall|g: int| 0 <= g < granted@.len() ==> granted@[g] == q[g].1,
                forall|g: int|
                    0 <= g < granted@.len() ==> spec_holds(lock_views(entry.1.locks@),
                        #[trigger] granted@[g]),
                forall|t: TransactionId|
                    t != *transaction_id && spec_holds(pre.key_lock_views(key@), t)
                        ==> spec_holds(lock_views(entry.1.locks@), t),
            ensures
                entry.0@ == key@,
                locks_compatible(lock_views(entry.1.locks@)),
                !spec_holds(lock_views(entry.1.locks@), *transaction_id),
                granted@.len() <= q.len(),
                queue_views(entry.1.wait_queue@) == q.skip(granted@.len() as int),
                forall|g: int| 0 <= g < granted@.len() ==> granted@[g] == q[g].1,
                forall|g: int|
                    0 <= g < granted@.len() ==> spec_holds(lock_views(entry.1.locks@),
                        #[trigger] granted@[g]),
                forall|t: TransactionId|
                    t != *transaction_id && spec_holds(pre.key_lock_views(key@), t)
                        ==> spec_holds(lock_views(entry.1.locks@), t),
                granted@.len() == q.len() || !spec_can_grant(
                    lock_views(entry.1.locks@),
                    q[granted@.len() as int].0,
                    q[granted@.len() as int].1,
                ),
            decreases entry.1.wait_queue@.len(),
        {
            if entry.1.wait_queue.len() == 0 {
                proof {
                    assert(q.skip(granted@.len() as int).len() == 0);
                }
                break;
            }
            let req_tx = entry.1.wait_queue[0].transaction_id;
            let req_mode = entry.1.wait_queue[0].mode;
            proof {
                assert(entry.1.wait_queue@[0].mode == req_mode);
                assert(entry.1.wait_queue@[0].transaction_id == req_tx);
                assert(queue_views(entry.1.wait_queue@)[0] == (
                    entry.1.wait_queue@[0].mode,
                    entry.1.wait_queue@[0].transaction_id,
                ));
                assert(q.skip(granted@.len() as int)[0] == q[granted@.len() as int]);
            }
            let can = entry.1.can_grant(&req_mode, &req_tx);
            if !can {
                break;
            }
            entry.1.wait_queue.remove(0);
            let ghost pre_lvs = lock_views(entry.1.locks@);
            let ghost pre_granted = granted@;
            proof {
                lemma_grant_keeps_compatible(pre_lvs, req_mode, req_tx);
                assert(queue_views(entry.1.wait_queue@) =~= q.skip(
                    pre_granted.len() as int,
                ).drop_first());
                assert(q.skip(pre_granted.len() as int).drop_first() =~= q.skip(
                    pre_granted.len() as int + 1,
                ));
            }
            entry.1.grant_lock(req_tx, req_mode);
            granted.push(req_tx);
            proof {
                let new_lvs = lock_views(entry.1.locks@);
                assert(new_lvs == pre_lvs.push((req_mode, req_tx)));
                assert(req_tx == q[pre_granted.len() as int].1);
                assert(q[pre_granted.len() as int].1 != *transaction_id);
                assert(!spec_holds(new_lvs, *transaction_id)) by {
                    if spec_holds(new_lvs, *transaction_id) {
                        let h = choose|h: int|
                            0 <= h < new_lvs.len() && new_lvs[h].1 == *transaction_id;
                        if h < pre_lvs.len() {
                            assert(pre_lvs[h].1 == *transaction_id);
                            assert(spec_holds(pre_lvs, *transaction_id));
                        } else {
                            assert(new_lvs[h] == (req_mode, req_tx));
                        }
                    }
                }
                assert forall|g: int| 0 <= g < granted@.len() implies spec_holds(
                    new_lvs,
                    #[trigger] granted@[g],
                ) by {
                    if g < pre_granted.len() {
                        assert(spec_holds(pre_lvs, granted@[g]));
                        let h = choose|h: int|
                            0 <= h < pre_lvs.len() && pre_lvs[h].1 == granted@[g];
                        assert(new_lvs[h].1 == granted@[g]);
                    } else {
                        assert(granted@[g] == req_tx);
                        assert(new_lvs[new_lvs.len() - 1].1 == req_tx);
                    }
                }
                assert forall|t: TransactionId|
                    t != *transaction_id && spec_holds(pre.key_lock_views(key@), t)
                        implies spec_holds(new_lvs, t) by {
                    assert(spec_holds(pre_lvs, t));
                    let h = choose|h: int| 0 <= h < pre_lvs.len() && pre_lvs[h].1 == t;
                    assert(new_lvs[h].1 == t);
                }
            }
        }
        self.deadlock_detector.remove_hold_edge(transaction_id, key);
        self.deadlock_detector.remove_wait_edge(transaction_id, key);
        let ghost mid_state = *self;
        let mut g: usize = 0;
        while g < granted.len()
            invariant
                0 <= g <= granted@.len(),
                self.deadlock_detector.wf(),
                self.resource_locks == mid_state.resource_locks,
                self.transaction_locks == mid_state.transaction_locks,
                self.lock_timeout_ms == mid_state.lock_timeout_ms,
                idx < self.resource_locks@.len() + 1,
                idx <= self.resource_locks@.len(),
            decreases granted@.len() - g,
        {
            let waiter = granted[g];
            self.deadlock_detector.remove_wait_edge(&waiter, key);
            self.deadlock_detector.add_hold_edge(waiter, key);
            g += 1;
        }
        let ghost entry_after = entry;
        self.resource_locks.insert(idx, entry);
        proof {
            let mid = *self;
            assert(self.resource_locks@[idx as int].0@ == key@);
            assert forall|i: int, j: int|
                0 <= i < j < self.resource_locks@.len() implies (
            #[trigger] self.resource_locks@[i]).0@ != (#[trigger] self.resource_locks@[j]).0@ by {
                assert(pre.resource_locks@[i].0@ != pre.resource_locks@[j].0@);
            }
            lemma_km_lookup(*self, idx as int);
            assert forall|i: int| 0 <= i < self.resource_locks@.len() implies locks_compatible(
                lock_views((#[trigger] self.resource_locks@[i]).1.locks@),
            ) by {
                if i != idx {
                    assert(self.resource_locks@[i] == pre.resource_locks@[i]);
                }
            }
            assert forall|k2: Seq<u8>| k2 != key@ implies self.key_lock_views(k2) == pre
                .key_lock_views(k2) && self.key_wait_views(k2) == pre.key_wait_views(k2) by {
                lemma_km_frame(pre, *self, idx as int, k2);
            }
            assert(self.key_lock_views(key@) == lock_views(entry_after.1.locks@));
            assert(self.key_wait_views(key@) == queue_views(entry_after.1.wait_queue@));
        }
        granted
    }

    /// Releases every lock a transaction holds and every request it has
    /// queued, key by key: afterwards it holds nothing anywhere, and no other
    /// transaction lost a lock it held.
    pub fn release_all_locks(&mut self, transaction_id: &TransactionId)
        requires
            old(self).wf(),
        ensures
            final(self).wf(),
            forall|k: Seq<u8>|
                !spec_holds(#[trigger] final(self).key_lock_views(k), *transaction_id),
            forall|k: Seq<u8>, t: TransactionId|
                t != *transaction_id && #[trigger] spec_holds(old(self).key_lock_views(k), t)
                    ==> spec_holds(final(self).key_lock_views(k), t),
    {
        let ghost pre = *old(self);
        let mut keys: Vec<Vec<u8>> = Vec::new();
        let mut i: usize = 0;
        let n = self.resource_locks.len();
        while i < n
            invariant
                0 <= i <= n,
                pre == *old(self),
                n == self.resource_locks@.len(),
                *self == *old(self),
                keys@.len() == i,
                forall|j: int|
                    0 <= j < i ==> (#[trigger] keys@[j])@ == pre.resource_locks_view()[j].0@,
            decreases n - i,
        {
            let mut kv: Vec<u8> = Vec::new();
            crate::util::extend_bytes(&mut kv, self.resource_locks[i].0.as_slice());
            proof {
                assert(kv@ =~= self.resource_locks@[i as int].0@);
                assert(self.resource_locks@[i as int] == pre.resource_locks_view()[i as int]);
            }
            keys.push(kv);
            proof {
                assert(keys@[i as int]@ == pre.resource_locks_view()[i as int].0@);
            }
            i += 1;
        }
        let mut k: usize = 0;
        while k < keys.len()
            invariant
                self.wf(),
                pre == *old(self),
                0 <= k <= keys@.len(),
                keys@.len() == pre.resource_locks_view().len(),
                pre.wf(),
                forall|j: int|
                    0 <= j < keys@.len() ==> (#[trigger] keys@[j])@
                        == pre.resource_locks_view()[j].0@,
                forall|j: int|
                    0 <= j < k ==> !spec_holds(
                        self.key_lock_views((#[trigger] keys@[j])@),
                        *transaction_id,
                    ),
                forall|q2: Seq<u8>|
                    (forall|j: int| 0 <= j < k ==> (#[trigger] keys@[j])@ != q2)
                        ==> #[trigger] self.key_lock_views(q2) == pre.key_lock_views(q2),
                forall|q2: Seq<u8>, t: TransactionId|
                    t != *transaction_id && #[trigger] spec_holds(pre.key_lock_views(q2), t)
                        ==> spec_holds(self.key_lock_views(q2), t),
            decreases keys@.len() - k,
        {
            let ghost before = *self;
            let granted = self.release_lock(keys[k].as_slice(), transaction_id);
            let _ = granted;
            proof {
                assert forall|j1: int, j2: int|
                    0 <= j1 < j2 < keys@.len() implies (#[trigger] keys@[j1])@ != (
                #[trigger] keys@[j2])@ by {
                    assert(pre.resource_locks_view()[j1].0@ != pre.resource_locks_view()[j2].0@);
                }
                assert forall|j: int| 0 <= j < k + 1 implies !spec_holds(
                    self.key_lock_views((#[trigger] keys@[j])@),
                    *transaction_id,
                ) by {
                    if keys@[j]@ != keys@[k as int]@ {
                        assert(self.key_lock_views(keys@[j]@) == before.key_lock_views(
                            keys@[j]@,
                        ));
                    }
                }
                assert forall|q2: Seq<u8>|
                    (forall|j: int| 0 <= j < k + 1 ==> (#[trigger] keys@[j])@ != q2)
                        implies #[trigger] self.key_lock_views(q2) == pre.key_lock_views(q2) by {
                    assert(q2 != keys@[k as int]@);
                    assert(self.key_lock_views(q2) == before.key_lock_views(q2));
                }
                assert forall|q2: Seq<u8>, t: TransactionId|
                    t != *transaction_id && #[trigger] spec_holds(pre.key_lock_views(q2), t)
                        implies spec_holds(self.key_lock_views(q2), t) by {
                    if q2 == keys@[k as int]@ {
                        assert(before.key_lock_views(q2) == pre.key_lock_views(q2)) by {
                            assert forall|j: int| 0 <= j < k implies (#[trigger] keys@[j])@
                                != q2 by {
                                assert(keys@[j]@ != keys@[k as int]@);
                            }
                        }
                        assert(spec_holds(before.key_lock_views(q2), t));
                    } else {
                        assert(spec_holds(before.key_lock_views(q2), t));
                        assert(self.key_lock_views(q2) == before.key_lock_views(q2));
                    }
                }
            }
            k += 1;
        }
        proof {
            assert forall|k2: Seq<u8>| !spec_holds(
                #[trigger] self.key_lock_views(k2),
                *transaction_id,
            ) by {
                if !(exists|j: int| 0 <= j < keys@.len() && (#[trigger] keys@[j])@ == k2) {
                    assert(self.key_lock_views(k2) == pre.key_lock_views(k2));
                    assert forall|w: int|
                        0 <= w < pre.resource_locks_view().len() implies (
                    #[trigger] pre.resource_locks_view()[w]).0@ != k2 by {
                        assert(keys@[w]@ == pre.resource_locks_view()[w].0@);
                    }
                    assert(pre.key_lock_views(k2) =~= Seq::<(LockMode, TransactionId)>::empty());
                }
            }
        }
        let ghost swept = *self;
        let mut out: Vec<(TransactionId, Vec<Vec<u8>>)> = Vec::new();
        loop
            invariant
                self.wf(),
                self.resource_locks == swept.resource_locks,
                self.lock_timeout_ms == swept.lock_timeout_ms,
            decreases self.transaction_locks@.len(),
        {
            if self.transaction_locks.len() == 0 {
                break;
            }
            let entry = self.transaction_locks.remove(0);
            if !(entry.0 == *transaction_id) {
                out.push(entry);
            }
        }
        self.transaction_locks = out;
        self.deadlock_detector.remove_transaction(transaction_id);
        proof {
            assert forall|k2: Seq<u8>|
                #[trigger] self.key_lock_views(k2) == swept.key_lock_views(k2) by {
                lemma_same_table_views(swept, *self, k2);
            }
        }
    }

    /// The recorded wait-for graph's wait entries.
    pub closed spec fn graph_waits(&self) -> Seq<(TransactionId, Vec<Vec<u8>>)> {
        self.deadlock_detector.waits_view()
    }

    /// One step of the recorded wait-for graph: `a` waits for a resource `b`
    /// holds.
    pub closed spec fn graph_edge(&self, a: TransactionId, b: TransactionId) -> bool {
        spec_edge(self.deadlock_detector, a, b)
    }

    /// The transactions the wait-for graph reports as deadlocked. Every one
    /// of them is currently waiting for a lock, and any one- or
    /// two-transaction cycle in the graph forces a non-empty report.
    pub fn detect_deadlocks(&self) -> (r: Vec<TransactionId>)
        requires
            self.wf(),
        ensures
            forall|k: int|
                0 <= k < r@.len() ==> spec_is_waiting(self.graph_waits(), #[trigger] r@[k]),
            forall|a: TransactionId, b: TransactionId|
                #[trigger] self.graph_edge(a, b) && self.graph_edge(b, a) ==> r@.len() > 0,
    {
        self.deadlock_detector.detect_cycles()
    }
}

/// Managers with the same lock table agree on every key's views.
proof fn lemma_same_table_views(m1: LockManager, m2: LockManager, k: Seq<u8>)
    requires
        m1.resource_locks == m2.resource_locks,
    ensures
        m1.key_lock_views(k) == m2.key_lock_views(k),
        m1.key_wait_views(k) == m2.key_wait_views(k),
{
}

/// The requests left waiting on a key once one transaction's own are purged,
/// oldest first: the candidates a release hands the lock to.
pub open spec fn spec_waiters(m: LockManager, k: Seq<u8>, tx: TransactionId) -> Seq<
    (LockMode, TransactionId),
> {
    spec_waiters_of(m.key_wait_views(k), tx)
}

/// With unique keys, the entry at `i` is what the key lookup yields.
proof fn lemma_km_lookup(m: LockManager, i: int)
    requires
        m.keys_unique(),
        0 <= i < m.resource_locks_view().len(),
    ensures
        m.key_lock_views(m.resource_locks_view()[i].0@) == lock_views(
            m.resource_locks_view()[i].1.locks@,
        ),
        m.key_wait_views(m.resource_locks_view()[i].0@) == queue_views(
            m.resource_locks_view()[i].1.wait_queue@,
        ),
{
    let s = m.resource_locks_view();
    let k = s[i].0@;
    assert(exists|w: int| 0 <= w < s.len() && (#[trigger] s[w]).0@ == k);
    let w = choose|w: int| 0 <= w < s.len() && (#[trigger] s[w]).0@ == k;
    if w != i {
        assert(s[if w < i { w } else { i }].0@ != s[if w < i { i } else { w }].0@);
    }
}

/// Two managers that agree everywhere but at entry `i`, whose key is not
/// `k`, agree on `k`'s locks.
proof fn lemma_km_frame(m1: LockManager, m2: LockManager, i: int, k: Seq<u8>)
    requires
        m1.keys_unique(),
        m2.keys_unique(),
        0 <= i < m2.resource_locks_view().len(),
        m1.resource_locks_view().len() == m2.resource_locks_view().len() || m1
            .resource_locks_view().len() + 1 == m2.resource_locks_view().len(),
        forall|j: int|
            0 <= j < m1.resource_locks_view().len() && j != i ==> m2.resource_locks_view()[j]
                == m1.resource_locks_view()[j],
        m2.resource_locks_view()[i].0@ != k,
        m1.resource_locks_view().len() == m2.resource_locks_view().len() && i < m1
            .resource_locks_view().len() ==> m1.resource_locks_view()[i].0@ == m2
            .resource_locks_view()[i].0@,
        m1.resource_locks_view().len() < m2.resource_locks_view().len() ==> i == m2
            .resource_locks_view().len() - 1,
    ensures
        m2.key_lock_views(k) == m1.key_lock_views(k),
        m2.key_wait_views(k) == m1.key_wait_views(k),
{
    let s1 = m1.resource_locks_view();
    let s2 = m2.resource_locks_view();
    assert forall|w: int| 0 <= w < s1.len() implies ((#[trigger] s1[w]).0@ == k <==> w < s2.len()
        && s2[w].0@ == k) by {
        if w == i {
            assert(s1[i].0@ == s2[i].0@);
        }
    }
    if exists|w: int| 0 <= w < s1.len() && (#[trigger] s1[w]).0@ == k {
        let w1 = choose|w1: int| 0 <= w1 < s1.len() && (#[trigger] s1[w1]).0@ == k;
        assert(s2[w1].0@ == k);
        let w2 = choose|w2: int| 0 <= w2 < s2.len() && (#[trigger] s2[w2]).0@ == k;
        assert(w2 != i);
        assert(w2 < s1.len()) by {
            if w2 >= s1.len() {
                assert(w2 == i);
            }
        }
        assert(s1[w2].0@ == k);
        assert(w1 == w2) by {
            if w1 < w2 {
                assert(s1[w1].0@ != s1[w2].0@);
            }
            if w2 < w1 {
                assert(s1[w2].0@ != s1[w1].0@);
            }
        }
        assert(s2[w2] == s1[w1]);
    } else {
        assert forall|w: int| 0 <= w < s2.len() implies (#[trigger] s2[w]).0@ != k by {
            if w != i && w < s1.len() {
                assert(s1[w].0@ != k);
            }
        }
        assert(m1.key_lock_views(k) =~= Seq::<(LockMode, TransactionId)>::empty());
        assert(m2.key_lock_views(k) =~= Seq::<(LockMode, TransactionId)>::empty());
        assert(m1.key_wait_views(k) =~= Seq::<(LockMode, TransactionId)>::empty());
        assert(m2.key_wait_views(k) =~= Seq::<(LockMode, TransactionId)>::empty());
    }
}

/// Dropping locks keeps a key's lock list compatible.
proof fn lemma_filter_compatible(
    lvs: Seq<(LockMode, TransactionId)>,
    pred: spec_fn((LockMode, TransactionId)) -> bool,
)
    requires
        locks_compatible(lvs),
    ensures
        locks_compatible(lvs.filter(pred)),
{
    let f = lvs.filter(pred);
    lemma_filter_subset(lvs, pred);
    if exists|i: int| 0 <= i < f.len() && f[i].0 == LockMode::Exclusive {
        let e = choose|e: int| 0 <= e < f.len() && f[e].0 == LockMode::Exclusive;
        let eo = choose|eo: int| 0 <= eo < lvs.len() && lvs[eo] == f[e];
        assert(lvs[eo].0 == LockMode::Exclusive);
        assert forall|i: int, j: int|
            0 <= i < f.len() && 0 <= j < f.len() implies (#[trigger] f[i]).1 == (
        #[trigger] f[j]).1 by {
            let io = choose|io: int| 0 <= io < lvs.len() && lvs[io] == f[i];
            let jo = choose|jo: int| 0 <= jo < lvs.len() && lvs[jo] == f[j];
            assert(lvs[io].1 == lvs[jo].1);
        }
    }
}

/// Every element of a filtered lock list comes from the original.
proof fn lemma_filter_subset(
    lvs: Seq<(LockMode, TransactionId)>,
    pred: spec_fn((LockMode, TransactionId)) -> bool,
)
    ensures
        forall|i: int|
            0 <= i < lvs.filter(pred).len() ==> exists|io: int|
                0 <= io < lvs.len() && lvs[io] == #[trigger] lvs.filter(pred)[i],
    decreases lvs.len(),
{
    reveal(Seq::filter);
    if lvs.len() > 0 {
        lemma_filter_subset(lvs.drop_last(), pred);
        assert forall|i: int| 0 <= i < lvs.filter(pred).len() implies exists|io: int|
            0 <= io < lvs.len() && lvs[io] == #[trigger] lvs.filter(pred)[i] by {
            let fd = lvs.drop_last().filter(pred);
            if pred(lvs.last()) {
                if i < fd.len() {
                    let io = choose|io: int|
                        0 <= io < lvs.drop_last().len() && lvs.drop_last()[io] == fd[i];
                    assert(lvs[io] == lvs.filter(pred)[i]);
                } else {
                    assert(lvs.filter(pred)[i] == lvs.last());
                    assert(lvs[lvs.len() - 1] == lvs.filter(pred)[i]);
                }
            } else {
                let io = choose|io: int|
                    0 <= io < lvs.drop_last().len() && lvs.drop_last()[io] == fd[i];
                assert(lvs[io] == lvs.filter(pred)[i]);
            }
        }
    }
}

impl LockManager {
    /// The raw entry list, for in-module reasoning.
    pub closed spec fn resource_locks_view(&self) -> Seq<(Vec<u8>, ResourceLocks)> {
        self.resource_locks@
    }
}

/// Every key's granted lock list in a well-formed manager is compatible.
pub proof fn lemma_manager_locks_compatible(m: LockManager, k: Seq<u8>)
    requires
        m.wf(),
    ensures
        locks_compatible(m.key_lock_views(k)),
{
    if exists|i: int|
        0 <= i < m.resource_locks_view().len() && (#[trigger] m.resource_locks_view()[i]).0@
            == k {
        let i = choose|i: int|
            0 <= i < m.resource_locks_view().len() && (#[trigger] m.resource_locks_view()[i]).0@
                == k;
        lemma_km_lookup(m, i);
    } else {
        assert(!(exists|i: int|
            0 <= i < m.resource_locks@.len() && (#[trigger] m.resource_locks@[i]).0@ == k)) by {
            if exists|i: int|
                0 <= i < m.resource_locks@.len() && (#[trigger] m.resource_locks@[i]).0@ == k {
                let i = choose|i: int|
                    0 <= i < m.resource_locks@.len() && (#[trigger] m.resource_locks@[i]).0@
                        == k;
                assert(m.resource_locks_view()[i].0@ == k);
            }
        }
        assert(m.key_lock_views(k) =~= Seq::<(LockMode, TransactionId)>::empty());
    }
}

/// Two transactions cannot both hold a lock on a key once one of them holds
/// it exclusively: overlapping write sets serialise behind the exclusive
/// lock.
pub proof fn lemma_exclusive_isolation(
    lvs: Seq<(LockMode, TransactionId)>,
    i: int,
    j: int,
)
    requires
        locks_compatible(lvs),
        0 <= i < lvs.len(),
        0 <= j < lvs.len(),
        lvs[i].0 == LockMode::Exclusive,
    ensures
        lvs[j].1 == lvs[i].1,
{
}

} // verus!
