use vstd::prelude::*;
use crate::receiver::{StatusEvent, completion_event, lemma_completion_step, lemma_receive_keeps_ids, receive_spec};
use crate::engine::{EngineView, Orchestrator, lemma_live_push, lemma_live_update};
use crate::receiver::lemma_update_keeps_parents_after_children;
use crate::model::{NodeKind, NodeStatus, NodeView};
use crate::predicates::entry_ready_spec;
use crate::queue::{Lease, QueueSlot, capacity_of, has_queue, holds, in_use};
use crate::store::{
    NodeFilter, children_of, graph_ok, has_node, ids_unique, lemma_children_ids_match, lemma_filter_unique,
    node_index, parent_ok, position_in,
};
use crate::usecase::{StartOutcome, Task, Usecase, UsecaseSelector};

verus! {

/// What one scheduling pass hands back to its driver.
pub struct PassPlan {
    /// Tasks whose nodes were claimed and leased a queue slot: stage, then
    /// dispatch each one.
    pub tasks: Vec<Task>,
    /// No-op nodes, and parents without batch children, that were claimed;
    /// `schedule` completes each of them before it returns.
    pub completions: Vec<u128>,
    /// A parent with batch children was claimed, so its children may be
    /// ready for another pass.
    pub rerun: bool,
}

pub open spec fn parent_running(nodes: Seq<NodeView>, p: u128) -> bool {
    has_node(nodes, p) && nodes[node_index(nodes, p)].status == NodeStatus::Running
}

/// A Standby node of the workflow is ready when, as an entry node, no entry
/// node is Running or Failed, or, as a batch child, its parent has fanned out
/// (is Running).
pub open spec fn ready_spec(nodes: Seq<NodeView>, flow: u128, n: NodeView) -> bool {
    &&& n.flow_instance_id == flow
    &&& n.status == NodeStatus::Standby
    &&& match n.batch_parent_id {
        None => entry_ready_spec(nodes, flow),
        Some(p) => parent_running(nodes, p),
    }
}

/// A batch child's slot in its parent's fan-out.
pub open spec fn shard_spec(nodes: Seq<NodeView>, n: NodeView) -> Option<usize> {
    match n.batch_parent_id {
        Some(p) => Some(position_in(children_of(nodes, p), n.id) as usize),
        None => None,
    }
}

/// Parents fan out and no-op nodes complete without any submission.
pub open spec fn direct_start(n: NodeView) -> bool {
    n.is_parent || n.kind == NodeKind::NoAction
}

pub open spec fn queue_for(sel: UsecaseSelector, k: NodeKind) -> u128 {
    match sel.usecase_for(k) {
        Usecase::Script { queue_id } => queue_id,
        Usecase::SoftwareComputing { queue_id } => queue_id,
        Usecase::NoAction => 0,
    }
}

pub open spec fn task_for(sel: UsecaseSelector, nodes: Seq<NodeView>, n: NodeView) -> Task {
    Task { node_id: n.id, queue_id: queue_for(sel, n.kind), kind: n.kind, shard: shard_spec(nodes, n) }
}

pub open spec fn lease_for(sel: UsecaseSelector, n: NodeView) -> Lease {
    Lease { node_id: n.id, queue_id: queue_for(sel, n.kind) }
}

/// `l` is the lease of a node that the pass dispatched.
pub open spec fn leased_in_pass(sel: UsecaseSelector, flow: u128, nodes0: Seq<NodeView>, nodes1: Seq<NodeView>, l: Lease) -> bool {
    exists|j: int|
        0 <= j < nodes0.len() && is_dispatch(sel, ready_spec(nodes0, flow, nodes0[j]), nodes0[j], nodes1[j])
            && l == lease_for(sel, nodes0[j])
}

/// `id` is a no-op node that the pass claimed.
pub open spec fn completed_in_pass(flow: u128, nodes0: Seq<NodeView>, id: u128) -> bool {
    exists|j: int| 0 <= j < nodes0.len() && is_completion(nodes0, ready_spec(nodes0, flow, nodes0[j]), nodes0[j]) && id == nodes0[j].id
}

pub open spec fn claimed(n: NodeView) -> NodeView {
    NodeView { status: NodeStatus::Running, ..n }
}

pub open spec fn dispatched(sel: UsecaseSelector, n: NodeView) -> NodeView {
    NodeView { status: NodeStatus::Running, queue_id: Some(queue_for(sel, n.kind)), ..n }
}

/// The queue of a dispatch node could not lease it a slot.
pub open spec fn refused(slots: Seq<QueueSlot>, leases: Seq<Lease>, q: u128, id: u128) -> bool {
    !has_queue(slots, q) || holds(leases, id) || in_use(leases, q) >= capacity_of(slots, q)
}

/// How one node fares in a pass: a node that is not ready is untouched; a
/// ready parent or no-op node is claimed; a ready dispatch node is claimed
/// with its queue recorded and a lease held, or stays as it was because its
/// queue refused the lease.
pub open spec fn step_ok(
    sel: UsecaseSelector,
    slots: Seq<QueueSlot>,
    leases: Seq<Lease>,
    ready: bool,
    n0: NodeView,
    n1: NodeView,
) -> bool {
    if !ready {
        n1 == n0
    } else if direct_start(n0) {
        n1 == claimed(n0)
    } else {
        let q = queue_for(sel, n0.kind);
        ||| (n1 == dispatched(sel, n0) && leases.contains(Lease { node_id: n0.id, queue_id: q }))
        ||| (n1 == n0 && refused(slots, leases, q, n0.id))
    }
}

pub open spec fn is_dispatch(sel: UsecaseSelector, ready: bool, n0: NodeView, n1: NodeView) -> bool {
    ready && !direct_start(n0) && n1 == dispatched(sel, n0)
}

/// A parent with batch children fans out; one without any has nothing to
/// wait for.
pub open spec fn fans_out(nodes: Seq<NodeView>, n: NodeView) -> bool {
    n.is_parent && children_of(nodes, n.id).len() > 0
}

/// A claimed node that is complete at once: a no-op node, or a parent with
/// no batch children (its join over no children is Completed).
pub open spec fn is_completion(nodes: Seq<NodeView>, ready: bool, n0: NodeView) -> bool {
    ready && if n0.is_parent {
        children_of(nodes, n0.id).len() == 0
    } else {
        n0.kind == NodeKind::NoAction
    }
}

proof fn lemma_push_keeps(leases: Seq<Lease>, l: Lease, q: u128, id: u128)
    ensures
        in_use(leases.push(l), q) >= in_use(leases, q),
        holds(leases, id) ==> holds(leases.push(l), id),
        forall|x: Lease| leases.contains(x) ==> leases.push(l).contains(x),
{
    reveal(Seq::filter);
    assert(leases.push(l).drop_last() =~= leases);
    if holds(leases, id) {
        let k = choose|k: int| 0 <= k < leases.len() && #[trigger] leases[k].node_id == id;
        assert(leases.push(l)[k].node_id == id);
    }
    assert forall|x: Lease| leases.contains(x) implies leases.push(l).contains(x) by {
        let k = choose|k: int| 0 <= k < leases.len() && leases[k] == x;
        assert(leases.push(l)[k] == x);
    }
}

/// The state after a Completed event for each of `ids`, handled in order.
pub open spec fn complete_all(s: EngineView, ids: Seq<u128>) -> EngineView
    decreases ids.len(),
{
    if ids.len() == 0 {
        s
    } else {
        receive_spec(complete_all(s, ids.drop_last()), completion_event(ids.last())).0
    }
}

/// What one claiming pass did, from state `s0` to state `s1`: how each node
/// fared, which leases were taken, and which tasks, completions and rerun
/// request it handed back.
pub open spec fn pass_claims(
    sel: UsecaseSelector,
    flow: u128,
    s0: EngineView,
    s1: EngineView,
    tasks: Seq<Task>,
    completions: Seq<u128>,
    rerun: bool,
) -> bool {
    &&& s1.slots == s0.slots
    &&& s1.workflows == s0.workflows
    &&& s1.nodes.len() == s0.nodes.len()
    &&& forall|j: int|
            0 <= j < s0.nodes.len() ==> step_ok(
                sel,
                s0.slots,
                s1.leases,
                ready_spec(s0.nodes, flow, s0.nodes[j]),
                s0.nodes[j],
                #[trigger] s1.nodes[j],
            )
    &&& s1.leases.len() >= s0.leases.len()
    &&& s1.leases.subrange(0, s0.leases.len() as int) == s0.leases
    &&& forall|k: int|
            s0.leases.len() <= k < s1.leases.len() ==> leased_in_pass(
                sel,
                flow,
                s0.nodes,
                s1.nodes,
                #[trigger] s1.leases[k],
            )
    &&& forall|k: int|
            0 <= k < tasks.len() ==> exists|j: int|
                0 <= j < s0.nodes.len() && is_dispatch(
                    sel,
                    ready_spec(s0.nodes, flow, s0.nodes[j]),
                    s0.nodes[j],
                    s1.nodes[j],
                ) && #[trigger] tasks[k] == task_for(sel, s0.nodes, s0.nodes[j])
    &&& forall|j: int|
            0 <= j < s0.nodes.len() && is_dispatch(
                sel,
                ready_spec(s0.nodes, flow, s0.nodes[j]),
                s0.nodes[j],
                #[trigger] s1.nodes[j],
            ) ==> tasks.contains(task_for(sel, s0.nodes, s0.nodes[j]))
    &&& forall|k: int|
            0 <= k < completions.len() ==> completed_in_pass(
                flow,
                s0.nodes,
                #[trigger] completions[k],
            )
    &&& forall|j: int|
            0 <= j < s0.nodes.len() && #[trigger] is_completion(
                s0.nodes,
                ready_spec(s0.nodes, flow, s0.nodes[j]),
                s0.nodes[j],
            ) ==> completions.contains(s0.nodes[j].id)
    &&& rerun == exists|j: int|
            0 <= j < s0.nodes.len() && ready_spec(s0.nodes, flow, #[trigger] s0.nodes[j])
                && fans_out(s0.nodes, s0.nodes[j])
}

impl Orchestrator {
    /// Readiness and shard of every node, as the pass starts.
    fn plan_readiness(&self, flow: u128) -> (r: (Vec<bool>, Vec<Option<usize>>, Vec<bool>))
        requires
            self.wf(),
        ensures
            r.0.len() == self@.nodes.len(),
            r.1.len() == self@.nodes.len(),
            r.2.len() == self@.nodes.len(),
            forall|j: int| 0 <= j < self@.nodes.len() ==> #[trigger] r.2@[j] == fans_out(self@.nodes, self@.nodes[j]),
            forall|j: int| 0 <= j < self@.nodes.len() ==> #[trigger] r.0@[j] == ready_spec(self@.nodes, flow, self@.nodes[j]),
            forall|j: int| 0 <= j < self@.nodes.len() ==> #[trigger] r.1@[j] == shard_spec(self@.nodes, self@.nodes[j]),
    {
        let gate = self.store.entry_ready(flow);
        let ghost nodes = self@.nodes;
        let mut ready: Vec<bool> = Vec::new();
        let mut shards: Vec<Option<usize>> = Vec::new();
        let mut fans: Vec<bool> = Vec::new();
        let count = self.store.node_count();
        let mut j: usize = 0;
        while j < count
            invariant
                self.wf(),
                nodes == self@.nodes,
                count == nodes.len(),
                gate == entry_ready_spec(nodes, flow),
                j <= count,
                ready.len() == j,
                shards.len() == j,
                fans.len() == j,
                forall|k: int| 0 <= k < j ==> #[trigger] fans@[k] == fans_out(nodes, nodes[k]),
                forall|k: int| 0 <= k < j ==> #[trigger] ready@[k] == ready_spec(nodes, flow, nodes[k]),
                forall|k: int| 0 <= k < j ==> #[trigger] shards@[k] == shard_spec(nodes, nodes[k]),
            decreases count - j,
        {
            let n = self.store.node_at(j);
            let id = n.id;
            assert(nodes[j as int].id == id);
            assert(has_node(nodes, id));
            assert(node_index(nodes, id) == j);
            let standby = n.flow_instance_id == flow && n.status == NodeStatus::Standby;
            let (r, sh) = match n.batch_parent_id {
                None => (standby && gate, None),
                Some(p) => {
                    let up = match self.store.find_node(p) {
                        Some(pi) => {
                            assert(pi == node_index(nodes, p));
                            self.store.node_at(pi).status == NodeStatus::Running
                        },
                        None => false,
                    };
                    let sh = match self.store.get_nth_of_batch_tasks(id) {
                        Ok(k) => Some(k),
                        Err(_) => None,
                    };
                    (standby && up, sh)
                },
            };
            let fan = n.is_parent && self.store.get_node_sub_node_instances(id).len() > 0;
            ready.push(r);
            shards.push(sh);
            fans.push(fan);
            j = j + 1;
        }
        (ready, shards, fans)
    }

    /// The claiming step of a pass over workflow `flow`. Every ready node is
    /// claimed (set Running) before anything is submitted: parents and no-op nodes at
    /// once, dispatch nodes once their queue leases them a slot; a node whose
    /// queue is busy stays Standby for a later pass.
    pub fn claim_ready(&mut self, flow: u128) -> (r: PassPlan)
        requires
            old(self).wf(),
        ensures
            final(self).wf(),
            final(self).selector == old(self).selector,
            final(self)@.slots == old(self)@.slots,
            pass_claims(
                old(self).selector,
                flow,
                old(self)@,
                final(self)@,
                r.tasks@,
                r.completions@,
                r.rerun,
            ),
    {
        let (ready, shards, fans) = self.plan_readiness(flow);
        let ghost s0 = self@;
        let ghost sel = self.selector;
        let mut tasks: Vec<Task> = Vec::new();
        let mut completions: Vec<u128> = Vec::new();
        let mut rerun = false;
        let ghost mut lsrc: Seq<int> = Seq::empty();
        let ghost mut tsrc: Seq<int> = Seq::empty();
        let ghost mut csrc: Seq<int> = Seq::empty();
        let count = self.store.node_count();
        let mut i: usize = 0;
        while i < count
            invariant
                self.wf(),
                self.selector == sel,
                count == s0.nodes.len(),
                ready.len() == count,
                shards.len() == count,
                forall|j: int| 0 <= j < count ==> #[trigger] ready@[j] == ready_spec(s0.nodes, flow, s0.nodes[j]),
                forall|j: int| 0 <= j < count ==> #[trigger] shards@[j] == shard_spec(s0.nodes, s0.nodes[j]),
                fans.len() == count,
                forall|j: int| 0 <= j < count ==> #[trigger] fans@[j] == fans_out(s0.nodes, s0.nodes[j]),
                i <= count,
                self@.slots == s0.slots,
                self@.workflows == s0.workflows,
                self@.nodes.len() == count,
                forall|j: int| i <= j < count ==> #[trigger] self@.nodes[j] == s0.nodes[j],
                forall|j: int|
                    0 <= j < i ==> step_ok(sel, s0.slots, self@.leases, ready@[j], s0.nodes[j], #[trigger] self@.nodes[j]),
                self@.leases.len() == s0.leases.len() + lsrc.len(),
                self@.leases.subrange(0, s0.leases.len() as int) == s0.leases,
                forall|k: int|
                    0 <= k < lsrc.len() ==> 0 <= #[trigger] lsrc[k] < i && is_dispatch(sel, ready@[lsrc[k]], s0.nodes[lsrc[k]], self@.nodes[lsrc[k]])
                        && self@.leases[s0.leases.len() + k] == lease_for(sel, s0.nodes[lsrc[k]]),
                tsrc.len() == tasks.len(),
                forall|k: int|
                    0 <= k < tsrc.len() ==> 0 <= #[trigger] tsrc[k] < i && is_dispatch(sel, ready@[tsrc[k]], s0.nodes[tsrc[k]], self@.nodes[tsrc[k]])
                        && tasks@[k] == task_for(sel, s0.nodes, s0.nodes[tsrc[k]]),
                forall|j: int|
                    0 <= j < i && is_dispatch(sel, ready@[j], s0.nodes[j], #[trigger] self@.nodes[j])
                        ==> tasks@.contains(task_for(sel, s0.nodes, s0.nodes[j])),
                csrc.len() == completions.len(),
                forall|k: int|
                    0 <= k < csrc.len() ==> 0 <= #[trigger] csrc[k] < i && is_completion(s0.nodes, ready@[csrc[k]], s0.nodes[csrc[k]])
                        && completions@[k] == s0.nodes[csrc[k]].id,
                forall|j: int|
                    0 <= j < i && #[trigger] is_completion(s0.nodes, ready@[j], s0.nodes[j]) ==> completions@.contains(s0.nodes[j].id),
                rerun == exists|j: int| 0 <= j < i && #[trigger] ready@[j] && fans_out(s0.nodes, s0.nodes[j]),
            decreases count - i,
        {
            let ghost before = self@;
            let ghost tasks0 = tasks@;
            let ghost completions0 = completions@;
            if ready[i] {
                let n = self.store.node_at(i);
                let id = n.id;
                let q0 = n.queue_id;
                let meter = n.resource_meter;
                let log = n.log.clone();
                proof {
                    assert(before.nodes[i as int] == s0.nodes[i as int]);
                }
                if n.is_parent {
                    self.store.write_dynamic(i, NodeStatus::Running, q0, meter, log);
                    proof {
                        lemma_live_update(before.nodes, before.leases, i as int, self@.nodes[i as int]);
                        lemma_update_keeps_parents_after_children(before.nodes, i as int, self@.nodes[i as int]);
                    }
                    if fans[i] {
                        rerun = true;
                        assert(ready@[i as int] && fans_out(s0.nodes, s0.nodes[i as int]));
                    } else {
                        completions.push(id);
                        proof {
                            csrc = csrc.push(i as int);
                            assert(completions@[completions0.len() as int] == id);
                            assert(completions@.subrange(0, completions0.len() as int) =~= completions0);
                        }
                    }
                    assert(self@.nodes[i as int] == claimed(s0.nodes[i as int]));
                } else {
                    let uc = self.selector.select(n.kind);
                    match uc.start(n, shards[i]) {
                        StartOutcome::ImmediatelyCompleted => {
                            self.store.write_dynamic(i, NodeStatus::Running, q0, meter, log);
                            proof {
                                lemma_live_update(before.nodes, before.leases, i as int, self@.nodes[i as int]);
                        lemma_update_keeps_parents_after_children(before.nodes, i as int, self@.nodes[i as int]);
                            }
                            completions.push(id);
                            proof {
                                csrc = csrc.push(i as int);
                                assert(completions@[completions0.len() as int] == id);
                                assert(completions@.subrange(0, completions0.len() as int) =~= completions0);
                            }
                        },
                        StartOutcome::DispatchRequest(task) => {
                            match self.queues.acquire(task.queue_id, id) {
                                Ok(()) => {
                                    proof {
                                        assert(before.nodes[i as int].id == id);
                                        assert(has_node(before.nodes, id));
                                        assert(node_index(before.nodes, id) == i);
                                        lemma_live_push(before.nodes, before.leases, Lease { node_id: id, queue_id: task.queue_id });
                                    }
                                    self.store.write_dynamic(i, NodeStatus::Running, Some(task.queue_id), meter, log);
                                    proof {
                                        lemma_live_update(before.nodes, self@.leases, i as int, self@.nodes[i as int]);
                                        lemma_update_keeps_parents_after_children(before.nodes, i as int, self@.nodes[i as int]);
                                    }
                                    tasks.push(task);
                                    let ghost l = Lease { node_id: id, queue_id: task.queue_id };
                                    proof {
                                        tsrc = tsrc.push(i as int);
                                        lsrc = lsrc.push(i as int);
                                        assert(tasks@[tasks0.len() as int] == task);
                                        assert(self@.leases =~= before.leases.push(l));
                                        assert(self@.leases[before.leases.len() as int] == l);
                                        assert forall|j: int| 0 <= j < i implies step_ok(sel, s0.slots, self@.leases, ready@[j], s0.nodes[j], #[trigger] self@.nodes[j]) by {
                                            lemma_push_keeps(before.leases, l, queue_for(sel, s0.nodes[j].kind), s0.nodes[j].id);
                                        }
                                        assert(self@.leases.subrange(0, s0.leases.len() as int) =~= s0.leases) by {
                                            assert(before.leases.subrange(0, s0.leases.len() as int) == s0.leases);
                                        }
                                        lemma_push_keeps(before.leases, l, task.queue_id, id);
                                        assert(self@.leases.contains(l)) by {
                                            assert(self@.leases[before.leases.len() as int] == l);
                                        }
                                    }
                                },
                                Err(_) => {},
                            }
                        },
                    }
                }
            }
            proof {
                assert forall|j: int| 0 <= j < i implies #[trigger] self@.nodes[j] == before.nodes[j] by {}
                assert forall|j: int| 0 <= j < i && is_dispatch(sel, ready@[j], s0.nodes[j], #[trigger] self@.nodes[j])
                    implies tasks@.contains(task_for(sel, s0.nodes, s0.nodes[j])) by {
                    assert(before.nodes[j] == self@.nodes[j]);
                    assert(tasks0.contains(task_for(sel, s0.nodes, s0.nodes[j])));
                    let k = choose|k: int| 0 <= k < tasks0.len() && tasks0[k] == task_for(sel, s0.nodes, s0.nodes[j]);
                    assert(tasks@[k] == tasks0[k]);
                }
                assert forall|j: int| 0 <= j < i && #[trigger] is_completion(s0.nodes, ready@[j], s0.nodes[j])
                    implies completions@.contains(s0.nodes[j].id) by {
                    assert(completions0.contains(s0.nodes[j].id));
                    let k = choose|k: int| 0 <= k < completions0.len() && completions0[k] == s0.nodes[j].id;
                    assert(completions@[k] == completions0[k]);
                }
            }
            i = i + 1;
        }
        proof {
            assert forall|k: int| old(self)@.leases.len() <= k < self@.leases.len() implies leased_in_pass(
                old(self).selector, flow, old(self)@.nodes, self@.nodes, #[trigger] self@.leases[k]) by {
                let j = lsrc[k - s0.leases.len()];
                assert(ready@[j] == ready_spec(s0.nodes, flow, s0.nodes[j]));
                assert(old(self)@.nodes[j] == s0.nodes[j]);
            }
            assert forall|k: int| 0 <= k < tasks.len() implies exists|j: int|
                0 <= j < s0.nodes.len() && is_dispatch(sel, ready_spec(s0.nodes, flow, s0.nodes[j]), s0.nodes[j], self@.nodes[j])
                    && #[trigger] tasks@[k] == task_for(sel, s0.nodes, s0.nodes[j]) by {
                let j = tsrc[k];
                assert(ready@[j] == ready_spec(s0.nodes, flow, s0.nodes[j]));
            }
            assert forall|k: int| 0 <= k < completions.len() implies completed_in_pass(
                flow, old(self)@.nodes, #[trigger] completions@[k]) by {
                let j = csrc[k];
                assert(ready@[j] == ready_spec(s0.nodes, flow, s0.nodes[j]));
                assert(old(self)@.nodes[j] == s0.nodes[j]);
            }
            assert forall|j: int|
                0 <= j < s0.nodes.len() && #[trigger] is_completion(s0.nodes, ready_spec(s0.nodes, flow, s0.nodes[j]), s0.nodes[j])
                    implies completions@.contains(s0.nodes[j].id) by {
                assert(ready@[j] == ready_spec(s0.nodes, flow, s0.nodes[j]));
            }
            if rerun {
                let j = choose|j: int| 0 <= j < count && #[trigger] ready@[j] && fans_out(s0.nodes, s0.nodes[j]);
                assert(ready_spec(s0.nodes, flow, s0.nodes[j]) && fans_out(s0.nodes, s0.nodes[j]));
            } else {
                assert forall|j: int| 0 <= j < s0.nodes.len() && #[trigger] ready_spec(s0.nodes, flow, s0.nodes[j])
                    implies !fans_out(s0.nodes, s0.nodes[j]) by {
                    assert(ready@[j]);
                }
            }
        }
        PassPlan { tasks, completions, rerun }
    }
}

impl Orchestrator {
    /// One scheduling pass over workflow `flow`: claims the ready nodes (see
    /// `claim_ready`), then completes at once every no-op node and every
    /// parent without batch children that it claimed, as the status receiver
    /// completes a node. The tasks it returns are left to stage and dispatch.
    pub fn schedule(&mut self, flow: u128) -> (r: PassPlan)
        requires
            old(self).wf(),
        ensures
            final(self).wf(),
            final(self).selector == old(self).selector,
            exists|mid: EngineView|
                pass_claims(old(self).selector, flow, old(self)@, mid, r.tasks@, r.completions@, r.rerun)
                    && final(self)@ == complete_all(mid, r.completions@),
    {
        let plan = self.claim_ready(flow);
        let ghost mid = self@;
        let ghost sel = self.selector;
        assert(pass_claims(sel, flow, old(self)@, mid, plan.tasks@, plan.completions@, plan.rerun));
        let mut j: usize = 0;
        while j < plan.completions.len()
            invariant
                self.wf(),
                self.selector == sel,
                j <= plan.completions.len(),
                self@ == complete_all(mid, plan.completions@.take(j as int)),
            decreases plan.completions.len() - j,
        {
            let ev = StatusEvent {
                node_id: plan.completions[j],
                status: NodeStatus::Completed,
                resource_meter: None,
                log_append: None,
            };
            proof {
                assert(ev@ == completion_event(plan.completions@[j as int]));
                assert(plan.completions@.take(j + 1).drop_last() =~= plan.completions@.take(j as int));
                assert(plan.completions@.take(j + 1).last() == plan.completions@[j as int]);
            }
            self.receive(&ev);
            j = j + 1;
        }
        assert(plan.completions@.take(plan.completions.len() as int) =~= plan.completions@);
        plan
    }
}

/// The claim written by a pass is what keeps a node from being started twice:
/// every node that the pass claimed, whatever the pass found ready, is
/// Running afterwards and so is not ready for any later pass.
pub proof fn lemma_claimed_not_ready_again(
    sel: UsecaseSelector,
    slots: Seq<QueueSlot>,
    leases: Seq<Lease>,
    ready: bool,
    n0: NodeView,
    n1: NodeView,
    nodes: Seq<NodeView>,
    flow: u128,
)
    requires
        step_ok(sel, slots, leases, ready, n0, n1),
        n1 != n0,
    ensures
        n1.status == NodeStatus::Running,
        !ready_spec(nodes, flow, n1),
{
}

/// Completed events for running or completed nodes without batch children
/// leave each of them Completed, keep every node where it was, and change the
/// status of no other node without batch children but to Completed.
proof fn lemma_complete_all(s: EngineView, ids: Seq<u128>)
    requires
        ids_unique(s.nodes),
        forall|t: int|
            0 <= t < ids.len() ==> has_node(s.nodes, #[trigger] ids[t]) && children_of(s.nodes, ids[t]).len() == 0
                && (s.nodes[node_index(s.nodes, ids[t])].status == NodeStatus::Running
                || s.nodes[node_index(s.nodes, ids[t])].status == NodeStatus::Completed),
    ensures
        complete_all(s, ids).nodes.len() == s.nodes.len(),
        forall|k: int|
            0 <= k < s.nodes.len() ==> #[trigger] complete_all(s, ids).nodes[k].id == s.nodes[k].id
                && complete_all(s, ids).nodes[k].batch_parent_id == s.nodes[k].batch_parent_id,
        ids_unique(complete_all(s, ids).nodes),
        forall|k: int|
            0 <= k < s.nodes.len() && children_of(s.nodes, s.nodes[k].id).len() == 0 ==> (
            #[trigger] complete_all(s, ids).nodes[k].status == s.nodes[k].status || complete_all(s, ids).nodes[k].status
                == NodeStatus::Completed),
        forall|t: int|
            0 <= t < ids.len() ==> complete_all(s, ids).nodes[node_index(s.nodes, #[trigger] ids[t])].status
                == NodeStatus::Completed,
    decreases ids.len(),
{
    if ids.len() > 0 {
        let rest = ids.drop_last();
        let x = ids.last();
        assert forall|t: int| 0 <= t < rest.len() implies has_node(s.nodes, #[trigger] rest[t]) && children_of(s.nodes, rest[t]).len() == 0
            && (s.nodes[node_index(s.nodes, rest[t])].status == NodeStatus::Running
            || s.nodes[node_index(s.nodes, rest[t])].status == NodeStatus::Completed) by {
            assert(rest[t] == ids[t]);
        }
        lemma_complete_all(s, rest);
        let prev = complete_all(s, rest);
        assert(ids[ids.len() - 1] == x);
        let i = node_index(s.nodes, x);
        assert(s.nodes[i].id == x);
        assert(prev.nodes[i].id == x);
        assert(has_node(prev.nodes, x));
        assert(node_index(prev.nodes, x) == i);
        assert forall|k: int| 0 <= k < s.nodes.len() implies #[trigger] s.nodes[k].id == prev.nodes[k].id
            && s.nodes[k].batch_parent_id == prev.nodes[k].batch_parent_id by {
            assert(prev.nodes[k].id == s.nodes[k].id);
        }
        lemma_children_ids_match(s.nodes, prev.nodes, x);
        assert(children_of(s.nodes, x).len() == 0);
        lemma_completion_step(prev, x);
        lemma_receive_keeps_ids(prev, completion_event(x));
        let fin = complete_all(s, ids);
        assert(fin == receive_spec(prev, completion_event(x)).0);
        assert forall|k: int| 0 <= k < s.nodes.len() && children_of(s.nodes, s.nodes[k].id).len() == 0 implies (
            #[trigger] fin.nodes[k].status == s.nodes[k].status || fin.nodes[k].status == NodeStatus::Completed) by {
            lemma_children_ids_match(s.nodes, prev.nodes, s.nodes[k].id);
            assert(prev.nodes[k].id == s.nodes[k].id);
        }
        assert forall|t: int| 0 <= t < ids.len() implies fin.nodes[node_index(s.nodes, #[trigger] ids[t])].status
            == NodeStatus::Completed by {
            if t < ids.len() - 1 {
                assert(rest[t] == ids[t]);
                let k = node_index(s.nodes, ids[t]);
                assert(s.nodes[k].id == ids[t]);
                lemma_children_ids_match(s.nodes, prev.nodes, ids[t]);
                if k != i {
                    assert(prev.nodes[k].id == s.nodes[k].id);
                }
            }
        }
    }
}

/// Every node that a pass completes at once, a claimed no-op node or a
/// claimed parent without batch children, is Completed when `schedule`
/// returns.
pub proof fn lemma_pass_completes_noop_nodes(
    sel: UsecaseSelector,
    flow: u128,
    s0: EngineView,
    mid: EngineView,
    tasks: Seq<Task>,
    completions: Seq<u128>,
    rerun: bool,
)
    requires
        ids_unique(s0.nodes),
        graph_ok(s0.nodes, s0.workflows),
        pass_claims(sel, flow, s0, mid, tasks, completions, rerun),
    ensures
        forall|t: int|
            0 <= t < completions.len() ==> has_node(complete_all(mid, completions).nodes, #[trigger] completions[t])
                && complete_all(mid, completions).nodes[node_index(complete_all(mid, completions).nodes, completions[t])].status
                == NodeStatus::Completed,
{
    assert forall|j: int| 0 <= j < s0.nodes.len() implies #[trigger] s0.nodes[j].id == mid.nodes[j].id
        && s0.nodes[j].batch_parent_id == mid.nodes[j].batch_parent_id by {
        assert(step_ok(sel, s0.slots, mid.leases, ready_spec(s0.nodes, flow, s0.nodes[j]), s0.nodes[j], mid.nodes[j]));
    }
    assert(ids_unique(mid.nodes)) by {
        assert forall|x: int, y: int| 0 <= x < mid.nodes.len() && 0 <= y < mid.nodes.len() && x != y implies #[trigger] mid.nodes[x].id != #[trigger] mid.nodes[y].id by {
            assert(s0.nodes[x].id == mid.nodes[x].id);
            assert(s0.nodes[y].id == mid.nodes[y].id);
        }
    }
    assert forall|t: int| 0 <= t < completions.len() implies has_node(mid.nodes, #[trigger] completions[t])
        && children_of(mid.nodes, completions[t]).len() == 0
        && (mid.nodes[node_index(mid.nodes, completions[t])].status == NodeStatus::Running
        || mid.nodes[node_index(mid.nodes, completions[t])].status == NodeStatus::Completed) by {
        let c = completions[t];
        assert(completed_in_pass(flow, s0.nodes, c));
        let j0 = choose|j: int| 0 <= j < s0.nodes.len() && is_completion(s0.nodes, ready_spec(s0.nodes, flow, s0.nodes[j]), s0.nodes[j]) && c == s0.nodes[j].id;
        assert(step_ok(sel, s0.slots, mid.leases, ready_spec(s0.nodes, flow, s0.nodes[j0]), s0.nodes[j0], mid.nodes[j0]));
        assert(mid.nodes[j0].id == c);
        assert(has_node(mid.nodes, c));
        assert(node_index(mid.nodes, c) == j0);
        if !s0.nodes[j0].is_parent && children_of(s0.nodes, c).len() > 0 {
            lemma_filter_unique(s0.nodes, NodeFilter::ChildrenOf(c));
            broadcast use vstd::seq_lib::group_filter_ensures;
            let ch = children_of(s0.nodes, c)[0];
            assert(NodeFilter::ChildrenOf(c).selects(ch));
            assert(s0.nodes.contains(ch));
            let m = choose|m: int| 0 <= m < s0.nodes.len() && s0.nodes[m] == ch;
            assert(parent_ok(s0.nodes, s0.nodes[m]));
            let q = choose|q: int| 0 <= q < s0.nodes.len() && #[trigger] s0.nodes[q].id == c && s0.nodes[q].is_parent
                && s0.nodes[q].flow_instance_id == s0.nodes[m].flow_instance_id;
            assert(q == j0);
        }
        lemma_children_ids_match(s0.nodes, mid.nodes, c);
    }
    lemma_complete_all(mid, completions);
    let fin = complete_all(mid, completions);
    assert forall|t: int| 0 <= t < completions.len() implies has_node(fin.nodes, #[trigger] completions[t])
        && fin.nodes[node_index(fin.nodes, completions[t])].status == NodeStatus::Completed by {
        let c = completions[t];
        let k = node_index(mid.nodes, c);
        assert(mid.nodes[k].id == c);
        assert(fin.nodes[k].id == c);
        assert(has_node(fin.nodes, c));
        assert(node_index(fin.nodes, c) == k);
    }
}

} // verus!
