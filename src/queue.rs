use vstd::prelude::*;

verus! {

/// A capacity slot on a compute queue, held by one node.
#[derive(Clone, Copy, PartialEq, Eq, Structural, Debug)]
pub struct Lease {
    pub node_id: u128,
    pub queue_id: u128,
}

/// A compute queue and the number of leases it can hold at once.
#[derive(Clone, Copy, PartialEq, Eq, Structural, Debug)]
pub struct QueueSlot {
    pub queue_id: u128,
    pub capacity: u64,
}

/// Why a lease was not granted.
#[derive(Clone, Copy, PartialEq, Eq, Structural, Debug)]
pub enum LeaseError {
    /// The queue is at capacity; the request may be retried later.
    Busy,
    /// No queue has that identifier.
    UnknownQueue,
    /// The node already holds a lease.
    AlreadyHeld,
}

pub struct QueueView {
    pub slots: Seq<QueueSlot>,
    pub leases: Seq<Lease>,
}

pub open spec fn holds(leases: Seq<Lease>, node: u128) -> bool {
    exists|i: int| 0 <= i < leases.len() && #[trigger] leases[i].node_id == node
}

pub open spec fn leases_on(leases: Seq<Lease>, queue: u128) -> Seq<Lease> {
    leases.filter(|l: Lease| l.queue_id == queue)
}

pub open spec fn in_use(leases: Seq<Lease>, queue: u128) -> nat {
    leases_on(leases, queue).len()
}

/// The leases that remain once `node` has given its lease back.
pub open spec fn released(leases: Seq<Lease>, node: u128) -> Seq<Lease> {
    leases.filter(|l: Lease| l.node_id != node)
}

pub open spec fn has_queue(slots: Seq<QueueSlot>, queue: u128) -> bool {
    exists|i: int| 0 <= i < slots.len() && #[trigger] slots[i].queue_id == queue
}

pub open spec fn capacity_of(slots: Seq<QueueSlot>, queue: u128) -> u64 {
    slots[choose|i: int| 0 <= i < slots.len() && #[trigger] slots[i].queue_id == queue].capacity
}

pub open spec fn lease_nodes_unique(leases: Seq<Lease>) -> bool {
    forall|i: int, j: int|
        0 <= i < leases.len() && 0 <= j < leases.len() && i != j ==> #[trigger] leases[i].node_id
            != #[trigger] leases[j].node_id
}

pub open spec fn queue_ids_unique(slots: Seq<QueueSlot>) -> bool {
    forall|i: int, j: int|
        0 <= i < slots.len() && 0 <= j < slots.len() && i != j ==> #[trigger] slots[i].queue_id
            != #[trigger] slots[j].queue_id
}

/// Every lease is on a known queue.
pub open spec fn leases_known(slots: Seq<QueueSlot>, leases: Seq<Lease>) -> bool {
    forall|k: int| 0 <= k < leases.len() ==> has_queue(slots, #[trigger] leases[k].queue_id)
}

/// No queue holds more leases than its capacity.
pub open spec fn within_capacity(slots: Seq<QueueSlot>, leases: Seq<Lease>) -> bool {
    forall|i: int| #![trigger slots[i]] 0 <= i < slots.len() ==> in_use(leases, slots[i].queue_id) <= slots[i].capacity
}

proof fn lemma_in_use_absent(leases: Seq<Lease>, q: u128)
    requires
        forall|k: int| 0 <= k < leases.len() ==> #[trigger] leases[k].queue_id != q,
    ensures
        in_use(leases, q) == 0,
    decreases leases.len(),
{
    reveal(Seq::filter);
    if leases.len() > 0 {
        lemma_in_use_absent(leases.drop_last(), q);
        assert(leases[leases.len() - 1].queue_id != q);
    }
}

proof fn lemma_in_use_push(leases: Seq<Lease>, l: Lease, q: u128)
    ensures
        in_use(leases.push(l), q) == in_use(leases, q) + if l.queue_id == q { 1int } else { 0int },
{
    reveal(Seq::filter);
    assert(leases.push(l).drop_last() =~= leases);
}

proof fn lemma_in_use_released(leases: Seq<Lease>, n: u128, q: u128)
    ensures
        in_use(released(leases, n), q) <= in_use(leases, q),
    decreases leases.len(),
{
    reveal(Seq::filter);
    if leases.len() > 0 {
        let rest = leases.drop_last();
        lemma_in_use_released(rest, n, q);
        if leases.last().node_id != n {
            lemma_in_use_push(released(rest, n), leases.last(), q);
        }
    }
}

/// Leases compute-queue capacity to nodes and takes it back.
pub struct QueueManager {
    slots: Vec<QueueSlot>,
    leases: Vec<Lease>,
}

impl View for QueueManager {
    type V = QueueView;

    closed spec fn view(&self) -> QueueView {
        QueueView { slots: self.slots@, leases: self.leases@ }
    }
}

impl QueueManager {
    /// Queue identifiers are unique, a node holds at most one lease, every
    /// lease is on a known queue, and no queue is over its capacity.
    pub open spec fn wf(&self) -> bool {
        &&& queue_ids_unique(self@.slots)
        &&& lease_nodes_unique(self@.leases)
        &&& leases_known(self@.slots, self@.leases)
        &&& within_capacity(self@.slots, self@.leases)
    }

    pub fn new() -> (r: QueueManager)
        ensures
            r.wf(),
            r@.slots.len() == 0,
            r@.leases.len() == 0,
    {
        QueueManager { slots: Vec::new(), leases: Vec::new() }
    }

    fn find_queue(&self, queue_id: u128) -> (r: Option<usize>)
        ensures
            match r {
                Some(i) => i < self@.slots.len() && self@.slots[i as int].queue_id == queue_id,
                None => !has_queue(self@.slots, queue_id),
            },
    {
        let mut i: usize = 0;
        while i < self.slots.len()
            invariant
                i <= self.slots.len(),
                forall|j: int| 0 <= j < i ==> #[trigger] self.slots@[j].queue_id != queue_id,
            decreases self.slots.len() - i,
        {
            if self.slots[i].queue_id == queue_id {
                return Some(i);
            }
            i = i + 1;
        }
        None
    }

    /// Registers a queue; returns false, changing nothing, if it is known already.
    pub fn add_queue(&mut self, queue_id: u128, capacity: u64) -> (r: bool)
        requires
            old(self).wf(),
        ensures
            final(self).wf(),
            r == !has_queue(old(self)@.slots, queue_id),
            final(self)@.leases == old(self)@.leases,
            final(self)@.slots == if r {
                old(self)@.slots.push(QueueSlot { queue_id, capacity })
            } else {
                old(self)@.slots
            },
    {
        match self.find_queue(queue_id) {
            Some(_) => false,
            None => {
                let ghost before = self@.slots;
                self.slots.push(QueueSlot { queue_id, capacity });
                proof {
                    assert forall|k: int| 0 <= k < self@.leases.len() implies #[trigger] self@.leases[k].queue_id != queue_id by {
                        if self@.leases[k].queue_id == queue_id {
                            let j = choose|j: int| 0 <= j < before.len() && #[trigger] before[j].queue_id == self@.leases[k].queue_id;
                        }
                    }
                    lemma_in_use_absent(self@.leases, queue_id);
                    assert forall|k: int| 0 <= k < self@.leases.len() implies has_queue(self@.slots, #[trigger] self@.leases[k].queue_id) by {
                        let j = choose|j: int| 0 <= j < before.len() && #[trigger] before[j].queue_id == self@.leases[k].queue_id;
                        assert(self@.slots[j] == before[j]);
                    }
                    assert forall|i: int| #![trigger self@.slots[i]] 0 <= i < self@.slots.len() implies in_use(self@.leases, self@.slots[i].queue_id) <= self@.slots[i].capacity by {
                        if i < before.len() {
                            assert(self@.slots[i] == before[i]);
                        }
                    }
                }
                true
            },
        }
    }

    /// The queue on which `node_id` holds a lease, if any.
    pub fn lease_of(&self, node_id: u128) -> (r: Option<u128>)
        ensures
            r.is_some() == holds(self@.leases, node_id),
            match r {
                Some(q) => exists|i: int|
                    0 <= i < self@.leases.len() && #[trigger] self@.leases[i] == (Lease { node_id, queue_id: q }),
                None => true,
            },
    {
        let mut i: usize = 0;
        while i < self.leases.len()
            invariant
                i <= self.leases.len(),
                forall|j: int| 0 <= j < i ==> #[trigger] self.leases@[j].node_id != node_id,
            decreases self.leases.len() - i,
        {
            if self.leases[i].node_id == node_id {
                assert(self@.leases[i as int] == (Lease { node_id, queue_id: self.leases[i as int].queue_id }));
                return Some(self.leases[i].queue_id);
            }
            i = i + 1;
        }
        None
    }

    /// Number of leases held on `queue_id`.
    pub fn count_in_use(&self, queue_id: u128) -> (r: usize)
        ensures
            r == in_use(self@.leases, queue_id),
    {
        let ghost all = self@.leases;
        let mut n: usize = 0;
        let mut i: usize = 0;
        while i < self.leases.len()
            invariant
                i <= self.leases.len(),
                all == self.leases@,
                n == in_use(all.take(i as int), queue_id),
                n <= i,
            decreases self.leases.len() - i,
        {
            proof {
                reveal(Seq::filter);
                assert(all.take(i + 1).drop_last() =~= all.take(i as int));
            }
            if self.leases[i].queue_id == queue_id {
                n = n + 1;
            }
            i = i + 1;
        }
        assert(all.take(self.leases.len() as int) =~= all);
        n
    }

    /// Leases a slot on `queue_id` to `node_id`.
    pub fn acquire(&mut self, queue_id: u128, node_id: u128) -> (r: Result<(), LeaseError>)
        requires
            old(self).wf(),
        ensures
            final(self).wf(),
            final(self)@.slots == old(self)@.slots,
            match r {
                Ok(()) => has_queue(old(self)@.slots, queue_id) && !holds(old(self)@.leases, node_id)
                    && in_use(old(self)@.leases, queue_id) < capacity_of(old(self)@.slots, queue_id)
                    && final(self)@.leases == old(self)@.leases.push(Lease { node_id, queue_id }),
                Err(LeaseError::UnknownQueue) => !has_queue(old(self)@.slots, queue_id)
                    && final(self)@ == old(self)@,
                Err(LeaseError::AlreadyHeld) => has_queue(old(self)@.slots, queue_id) && holds(
                    old(self)@.leases,
                    node_id,
                ) && final(self)@ == old(self)@,
                Err(LeaseError::Busy) => has_queue(old(self)@.slots, queue_id) && !holds(
                    old(self)@.leases,
                    node_id,
                ) && in_use(old(self)@.leases, queue_id) >= capacity_of(old(self)@.slots, queue_id)
                    && final(self)@ == old(self)@,
            },
    {
        let qi = match self.find_queue(queue_id) {
            Some(qi) => qi,
            None => {
                return Err(LeaseError::UnknownQueue);
            },
        };
        assert(capacity_of(self@.slots, queue_id) == self.slots@[qi as int].capacity);
        if self.lease_of(node_id).is_some() {
            return Err(LeaseError::AlreadyHeld);
        }
        let used = self.count_in_use(queue_id);
        if used as u64 >= self.slots[qi].capacity {
            return Err(LeaseError::Busy);
        }
        let ghost before = self@.leases;
        self.leases.push(Lease { node_id, queue_id });
        proof {
            let l = Lease { node_id, queue_id };
            assert forall|i: int| #![trigger self@.slots[i]] 0 <= i < self@.slots.len() implies in_use(self@.leases, self@.slots[i].queue_id) <= self@.slots[i].capacity by {
                lemma_in_use_push(before, l, self@.slots[i].queue_id);
                if self@.slots[i].queue_id == queue_id {
                    assert(i == qi);
                }
            }
            assert forall|k: int| 0 <= k < self@.leases.len() implies has_queue(self@.slots, #[trigger] self@.leases[k].queue_id) by {
                if k < before.len() {
                    assert(self@.leases[k] == before[k]);
                } else {
                    assert(self@.slots[qi as int].queue_id == queue_id);
                }
            }
        }
        assert(lease_nodes_unique(self@.leases)) by {
            assert forall|i: int, j: int|
                0 <= i < self@.leases.len() && 0 <= j < self@.leases.len() && i != j
                implies #[trigger] self@.leases[i].node_id != #[trigger] self@.leases[j].node_id by {
                if i < before.len() && j < before.len() {
                } else if i < before.len() {
                    assert(before[i].node_id != node_id);
                } else {
                    assert(before[j].node_id != node_id);
                }
            }
        }
        Ok(())
    }

    /// Gives back the lease of `node_id`. Returns whether it held one; when it
    /// held none this changes nothing, so releasing twice is harmless.
    pub fn release(&mut self, node_id: u128) -> (r: bool)
        requires
            old(self).wf(),
        ensures
            final(self).wf(),
            r == holds(old(self)@.leases, node_id),
            final(self)@.slots == old(self)@.slots,
            final(self)@.leases == released(old(self)@.leases, node_id),
            !holds(final(self)@.leases, node_id),
    {
        let ghost all = self@.leases;
        let mut kept: Vec<Lease> = Vec::new();
        let mut found = false;
        let mut i: usize = 0;
        while i < self.leases.len()
            invariant
                i <= self.leases.len(),
                all == self.leases@,
                kept@ == released(all.take(i as int), node_id),
                found == exists|k: int| 0 <= k < i && #[trigger] all[k].node_id == node_id,
            decreases self.leases.len() - i,
        {
            proof {
                reveal(Seq::filter);
                assert(all.take(i + 1).drop_last() =~= all.take(i as int));
            }
            let l = self.leases[i];
            if l.node_id != node_id {
                kept.push(l);
            } else {
                found = true;
            }
            i = i + 1;
        }
        assert(all.take(self.leases.len() as int) =~= all);
        proof {
            lemma_released_facts(all, node_id);
            let r = released(all, node_id);
            assert forall|i: int| #![trigger self@.slots[i]] 0 <= i < self@.slots.len() implies in_use(r, self@.slots[i].queue_id) <= self@.slots[i].capacity by {
                lemma_in_use_released(all, node_id, self@.slots[i].queue_id);
            }
            assert forall|k: int| 0 <= k < r.len() implies has_queue(self@.slots, #[trigger] r[k].queue_id) by {
                assert(all.contains(r[k]));
                let j = choose|j: int| 0 <= j < all.len() && all[j] == r[k];
                assert(has_queue(self@.slots, all[j].queue_id));
            }
        }
        self.leases = kept;
        found
    }
}

/// What remains after a release: unique holders still, none of them `node`,
/// and each a lease that was there before.
pub proof fn lemma_released_facts(leases: Seq<Lease>, node: u128)
    requires
        lease_nodes_unique(leases),
    ensures
        lease_nodes_unique(released(leases, node)),
        !holds(released(leases, node), node),
        forall|k: int| 0 <= k < released(leases, node).len() ==> leases.contains(#[trigger] released(leases, node)[k]),
    decreases leases.len(),
{
    reveal(Seq::filter);
    if leases.len() > 0 {
        let rest = leases.drop_last();
        lemma_released_facts(rest, node);
        let r = released(rest, node);
        assert forall|k: int| 0 <= k < r.len() implies leases.contains(#[trigger] r[k]) by {
            let j = choose|j: int| 0 <= j < rest.len() && rest[j] == r[k];
            assert(leases[j] == r[k]);
        }
        if leases.last().node_id != node {
            assert forall|k: int| 0 <= k < r.len() implies #[trigger] r[k].node_id != leases.last().node_id by {
                let j = choose|j: int| 0 <= j < rest.len() && rest[j] == r[k];
                assert(leases[j] == r[k]);
                assert(j != leases.len() - 1);
            }
            assert(leases.contains(leases.last())) by {
                assert(leases[leases.len() - 1] == leases.last());
            }
        }
    }
}

/// Filtering out a node that holds nothing changes nothing.
pub proof fn lemma_release_absent(leases: Seq<Lease>, node: u128)
    requires
        !holds(leases, node),
    ensures
        released(leases, node) == leases,
    decreases leases.len(),
{
    reveal(Seq::filter);
    if leases.len() > 0 {
        lemma_release_absent(leases.drop_last(), node);
        assert(leases.last().node_id != node) by {
            assert(leases[leases.len() - 1] == leases.last());
        }
        assert(leases.drop_last().push(leases.last()) =~= leases);
    }
}

/// Releasing the same node twice leaves what releasing once left, and the
/// second release reports that nothing was held.
pub proof fn lemma_release_twice(leases: Seq<Lease>, node: u128)
    requires
        lease_nodes_unique(leases),
    ensures
        released(released(leases, node), node) == released(leases, node),
        !holds(released(leases, node), node),
{
    lemma_released_facts(leases, node);
    lemma_release_absent(released(leases, node), node);
}

} // verus!
