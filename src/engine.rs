use vstd::prelude::*;
use crate::model::{NodeView, WorkflowInstance, is_terminal};
use crate::store::{has_node, ids_unique, node_index};
use crate::queue::{Lease, QueueManager, QueueSlot, holds};
use crate::store::NodeStore;
use crate::receiver::parents_after_children;
use crate::usecase::UsecaseSelector;

verus! {

/// Everything the scheduler and the status receiver read and write.
pub struct EngineView {
    pub nodes: Seq<NodeView>,
    pub workflows: Seq<WorkflowInstance>,
    pub slots: Seq<QueueSlot>,
    pub leases: Seq<Lease>,
}

/// Every lease is held by a stored node that has not ended: a node gives its
/// lease back when it becomes terminal.
pub open spec fn leases_live(nodes: Seq<NodeView>, leases: Seq<Lease>) -> bool {
    forall|k: int|
        0 <= k < leases.len() ==> has_node(nodes, #[trigger] leases[k].node_id) && !is_terminal(
            nodes[node_index(nodes, leases[k].node_id)].status,
        )
}

/// In every state the engine keeps, no terminal node holds a queue lease:
/// each node's lease is given back when it ends, and none is ever taken by a
/// node that has ended.
pub proof fn lemma_terminal_nodes_hold_no_lease(o: Orchestrator)
    requires
        o.wf(),
    ensures
        forall|i: int|
            0 <= i < o@.nodes.len() && is_terminal(#[trigger] o@.nodes[i].status) ==> !holds(
                o@.leases,
                o@.nodes[i].id,
            ),
{
    assert forall|i: int| 0 <= i < o@.nodes.len() && is_terminal(#[trigger] o@.nodes[i].status) implies !holds(
        o@.leases,
        o@.nodes[i].id,
    ) by {
        if holds(o@.leases, o@.nodes[i].id) {
            let k = choose|k: int| 0 <= k < o@.leases.len() && #[trigger] o@.leases[k].node_id == o@.nodes[i].id;
            assert(has_node(o@.nodes, o@.leases[k].node_id));
            assert(node_index(o@.nodes, o@.nodes[i].id) == i);
        }
    }
}

/// A lease handed to a stored node that has not ended keeps leases live.
pub proof fn lemma_live_push(nodes: Seq<NodeView>, leases: Seq<Lease>, l: Lease)
    requires
        leases_live(nodes, leases),
        has_node(nodes, l.node_id),
        !is_terminal(nodes[node_index(nodes, l.node_id)].status),
    ensures
        leases_live(nodes, leases.push(l)),
{
    assert forall|k: int| 0 <= k < leases.push(l).len() implies has_node(nodes, #[trigger] leases.push(l)[k].node_id)
        && !is_terminal(nodes[node_index(nodes, leases.push(l)[k].node_id)].status) by {
        if k < leases.len() {
            assert(leases.push(l)[k] == leases[k]);
        }
    }
}

/// Rewriting a node in place, keeping its identifier and leaving it not
/// terminal, keeps leases live.
pub proof fn lemma_live_update(nodes: Seq<NodeView>, leases: Seq<Lease>, i: int, v: NodeView)
    requires
        ids_unique(nodes),
        leases_live(nodes, leases),
        0 <= i < nodes.len(),
        v.id == nodes[i].id,
        !is_terminal(v.status),
    ensures
        leases_live(nodes.update(i, v), leases),
{
    let after = nodes.update(i, v);
    assert forall|k: int| 0 <= k < leases.len() implies has_node(after, #[trigger] leases[k].node_id)
        && !is_terminal(after[node_index(after, leases[k].node_id)].status) by {
        let id = leases[k].node_id;
        let j = node_index(nodes, id);
        assert(nodes[j].id == id);
        assert(after[j].id == id);
        assert(has_node(after, id));
        let j2 = node_index(after, id);
        assert(after[j2].id == id);
        if j2 != j {
            if j2 != i {
                assert(nodes[j2].id == id);
            } else {
                assert(nodes[i].id == id);
            }
        }
    }
}

/// The store, the queue leases and the strategy registry, passed explicitly
/// to the scheduler and the status receiver.
pub struct Orchestrator {
    pub store: NodeStore,
    pub queues: QueueManager,
    pub selector: UsecaseSelector,
}

impl View for Orchestrator {
    type V = EngineView;

    open spec fn view(&self) -> EngineView {
        EngineView {
            nodes: self.store@.nodes,
            workflows: self.store@.workflows,
            slots: self.queues@.slots,
            leases: self.queues@.leases,
        }
    }
}

impl Orchestrator {
    pub open spec fn wf(&self) -> bool {
        &&& self.store.wf()
        &&& self.queues.wf()
        &&& self.selector.wf()
        &&& leases_live(self.store@.nodes, self.queues@.leases)
        &&& parents_after_children(self.store@.nodes)
    }

    pub fn new(store: NodeStore, queues: QueueManager, selector: UsecaseSelector) -> (r: Orchestrator)
        requires
            store.wf(),
            queues.wf(),
            selector.wf(),
            leases_live(store@.nodes, queues@.leases),
            parents_after_children(store@.nodes),
        ensures
            r.wf(),
            r.store == store,
            r.queues == queues,
            r.selector == selector,
    {
        Orchestrator { store, queues, selector }
    }
}

} // verus!
