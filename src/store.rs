use vstd::prelude::*;
use crate::model::{
    NodeInstance, NodeStatus, NodeView, ResourceMeter, WorkflowInstance, WorkflowStatus,
    is_terminal, views,
};
use crate::predicates::{entry_nodes_ready, entry_ready_spec, batch_position, is_entry_of};

verus! {

/// Why a store operation did not take effect.
#[derive(Clone, Copy, PartialEq, Eq, Structural, Debug)]
pub enum StoreError {
    /// No node or workflow has the identifier asked for.
    NotFound,
    /// A node or workflow with that identifier already exists.
    DuplicateId,
    /// The node asked for has no batch parent.
    NotABatchChild,
    /// The node names a workflow that the store does not hold.
    UnknownWorkflow,
    /// The node's batch parent is missing, is no parent, or belongs to
    /// another workflow.
    InvalidParent,
    /// The workflow has already ended; it takes no new nodes.
    WorkflowClosed,
}

/// A selection of nodes, as the store's queries make them.
#[derive(Clone, Copy, PartialEq, Eq, Structural, Debug)]
pub enum NodeFilter {
    ChildrenOf(u128),
    FlowOf(u128),
    StandbyOf(u128),
}

impl NodeFilter {
    pub open spec fn selects(self, n: NodeView) -> bool {
        match self {
            NodeFilter::ChildrenOf(p) => n.batch_parent_id == Some(p),
            NodeFilter::FlowOf(w) => n.flow_instance_id == w,
            NodeFilter::StandbyOf(w) => n.flow_instance_id == w && n.status == NodeStatus::Standby,
        }
    }

    pub fn test(&self, n: &NodeInstance) -> (r: bool)
        ensures
            r == self.selects(n@),
    {
        match *self {
            NodeFilter::ChildrenOf(p) => match n.batch_parent_id {
                Some(q) => q == p,
                None => false,
            },
            NodeFilter::FlowOf(w) => n.flow_instance_id == w,
            NodeFilter::StandbyOf(w) => n.flow_instance_id == w && n.status == NodeStatus::Standby,
        }
    }
}

pub open spec fn select(nodes: Seq<NodeView>, f: NodeFilter) -> Seq<NodeView> {
    nodes.filter(|n: NodeView| f.selects(n))
}

pub open spec fn children_of(nodes: Seq<NodeView>, parent: u128) -> Seq<NodeView> {
    select(nodes, NodeFilter::ChildrenOf(parent))
}

pub open spec fn has_node(nodes: Seq<NodeView>, id: u128) -> bool {
    exists|i: int| 0 <= i < nodes.len() && #[trigger] nodes[i].id == id
}

pub open spec fn node_index(nodes: Seq<NodeView>, id: u128) -> int {
    choose|i: int| 0 <= i < nodes.len() && #[trigger] nodes[i].id == id
}

pub open spec fn ids_unique(nodes: Seq<NodeView>) -> bool {
    forall|i: int, j: int|
        0 <= i < nodes.len() && 0 <= j < nodes.len() && i != j ==> #[trigger] nodes[i].id
            != #[trigger] nodes[j].id
}

pub open spec fn workflow_ids_unique(flows: Seq<WorkflowInstance>) -> bool {
    forall|i: int, j: int|
        0 <= i < flows.len() && 0 <= j < flows.len() && i != j ==> #[trigger] flows[i].id
            != #[trigger] flows[j].id
}

pub open spec fn workflow_index(flows: Seq<WorkflowInstance>, id: u128) -> int {
    choose|i: int| 0 <= i < flows.len() && #[trigger] flows[i].id == id
}

pub open spec fn has_workflow(flows: Seq<WorkflowInstance>, id: u128) -> bool {
    exists|i: int| 0 <= i < flows.len() && #[trigger] flows[i].id == id
}

/// A batch-parent reference, if any, names a parent node of the same workflow.
pub open spec fn parent_ok(nodes: Seq<NodeView>, n: NodeView) -> bool {
    match n.batch_parent_id {
        None => true,
        Some(p) => exists|j: int|
            0 <= j < nodes.len() && #[trigger] nodes[j].id == p && nodes[j].is_parent
                && nodes[j].flow_instance_id == n.flow_instance_id,
    }
}

/// Every node belongs to a known workflow, and every batch-parent reference
/// is sound.
pub open spec fn graph_ok(nodes: Seq<NodeView>, flows: Seq<WorkflowInstance>) -> bool {
    forall|i: int|
        #![trigger nodes[i]]
        0 <= i < nodes.len() ==> has_workflow(flows, nodes[i].flow_instance_id) && parent_ok(nodes, nodes[i])
}

/// Workflows that keep their identifiers, or gain one more, still know every
/// node's workflow.
pub proof fn lemma_graph_ok_flows(nodes: Seq<NodeView>, a: Seq<WorkflowInstance>, b: Seq<WorkflowInstance>)
    requires
        graph_ok(nodes, a),
        a.len() <= b.len(),
        forall|i: int| 0 <= i < a.len() ==> #[trigger] b[i].id == a[i].id,
    ensures
        graph_ok(nodes, b),
{
    assert forall|i: int| #![trigger nodes[i]] 0 <= i < nodes.len() implies has_workflow(b, nodes[i].flow_instance_id)
        && parent_ok(nodes, nodes[i]) by {
        let k = choose|k: int| 0 <= k < a.len() && #[trigger] a[k].id == nodes[i].flow_instance_id;
        assert(b[k].id == a[k].id);
    }
}

/// The fields that fix a node's place in the graph are the same in both.
pub open spec fn same_shape(a: Seq<NodeView>, b: Seq<NodeView>) -> bool {
    &&& a.len() == b.len()
    &&& forall|i: int|
        #![trigger b[i]]
        0 <= i < a.len() ==> b[i].id == a[i].id && b[i].is_parent == a[i].is_parent
            && b[i].flow_instance_id == a[i].flow_instance_id && b[i].batch_parent_id
            == a[i].batch_parent_id
}

/// Rewriting the dynamic fields of nodes keeps the graph sound.
pub proof fn lemma_graph_ok_same_shape(a: Seq<NodeView>, b: Seq<NodeView>, flows: Seq<WorkflowInstance>)
    requires
        graph_ok(a, flows),
        same_shape(a, b),
    ensures
        graph_ok(b, flows),
{
    assert forall|i: int| #![trigger b[i]] 0 <= i < b.len() implies has_workflow(flows, b[i].flow_instance_id)
        && parent_ok(b, b[i]) by {
        assert(b[i].flow_instance_id == a[i].flow_instance_id);
        assert(parent_ok(a, a[i]));
        match a[i].batch_parent_id {
            Some(p) => {
                let j = choose|j: int|
                    0 <= j < a.len() && #[trigger] a[j].id == p && a[j].is_parent
                        && a[j].flow_instance_id == a[i].flow_instance_id;
                assert(b[j].id == a[j].id);
            },
            None => {},
        }
    }
}

/// Zero-based position of `id` among the children of its batch parent.
pub open spec fn position_in(siblings: Seq<NodeView>, id: u128) -> int {
    choose|k: int| 0 <= k < siblings.len() && #[trigger] siblings[k].id == id
}

/// The fields a node update writes: status, queue, meter and log.
pub open spec fn with_dynamic(n: NodeView, u: NodeView) -> NodeView {
    NodeView {
        status: u.status,
        queue_id: u.queue_id,
        resource_meter: u.resource_meter,
        log: u.log,
        ..n
    }
}

/// What the store holds: every node and every workflow, in store order.
pub struct StoreView {
    pub nodes: Seq<NodeView>,
    pub workflows: Seq<WorkflowInstance>,
}

/// The single source of truth for workflows and their nodes.
pub struct NodeStore {
    nodes: Vec<NodeInstance>,
    workflows: Vec<WorkflowInstance>,
}

impl View for NodeStore {
    type V = StoreView;

    closed spec fn view(&self) -> StoreView {
        StoreView { nodes: views(self.nodes@), workflows: self.workflows@ }
    }
}

impl NodeStore {
    /// Node identifiers and workflow identifiers are unique.
    pub open spec fn wf(&self) -> bool {
        &&& ids_unique(self@.nodes)
        &&& workflow_ids_unique(self@.workflows)
        &&& graph_ok(self@.nodes, self@.workflows)
    }

    pub fn new() -> (r: NodeStore)
        ensures
            r.wf(),
            r@.nodes.len() == 0,
            r@.workflows.len() == 0,
    {
        let r = NodeStore { nodes: Vec::new(), workflows: Vec::new() };
        assert(r@.nodes =~= Seq::empty());
        r
    }

    pub fn node_count(&self) -> (r: usize)
        ensures
            r == self@.nodes.len(),
    {
        self.nodes.len()
    }

    /// Index of the node `id` in store order.
    pub fn find_node(&self, id: u128) -> (r: Option<usize>)
        ensures
            match r {
                Some(i) => i < self@.nodes.len() && self@.nodes[i as int].id == id,
                None => !has_node(self@.nodes, id),
            },
    {
        let mut i: usize = 0;
        while i < self.nodes.len()
            invariant
                i <= self.nodes.len(),
                forall|j: int| 0 <= j < i ==> #[trigger] self.nodes@[j].id != id,
            decreases self.nodes.len() - i,
        {
            if self.nodes[i].id == id {
                return Some(i);
            }
            i = i + 1;
        }
        assert forall|j: int| 0 <= j < self@.nodes.len() implies #[trigger] self@.nodes[j].id != id by {
            assert(self.nodes@[j].id != id);
        }
        None
    }

    /// Read access to the node at a position in store order.
    pub fn node_at(&self, i: usize) -> (r: &NodeInstance)
        requires
            i < self@.nodes.len(),
        ensures
            r@ == self@.nodes[i as int],
    {
        &self.nodes[i]
    }

    pub fn get_by_id(&self, id: u128) -> (r: Result<NodeInstance, StoreError>)
        ensures
            match r {
                Ok(n) => has_node(self@.nodes, id) && n@.id == id && exists|i: int|
                    0 <= i < self@.nodes.len() && #[trigger] self@.nodes[i] == n@,
                Err(e) => e == StoreError::NotFound && !has_node(self@.nodes, id),
            },
    {
        match self.find_node(id) {
            Some(i) => {
                let n = self.nodes[i].duplicate();
                assert(self@.nodes[i as int] == n@);
                Ok(n)
            },
            None => Err(StoreError::NotFound),
        }
    }

    /// Adds a node at once. Its identifier must be new, its workflow known and
    /// still running, and its batch parent, if any, a parent node of the same
    /// workflow that is already stored. Callers stage inserts in a `Batch`.
    pub(crate) fn insert_now(&mut self, node: NodeInstance) -> (r: Result<u128, StoreError>)
        requires
            old(self).wf(),
        ensures
            final(self).wf(),
            final(self)@.workflows == old(self)@.workflows,
            match r {
                Ok(id) => {
                    &&& id == node.id
                    &&& !has_node(old(self)@.nodes, node.id)
                    &&& has_workflow(old(self)@.workflows, node.flow_instance_id)
                    &&& old(self)@.workflows[workflow_index(old(self)@.workflows, node.flow_instance_id)].status
                        == WorkflowStatus::Running
                    &&& parent_ok(old(self)@.nodes, node@)
                    &&& final(self)@.nodes == old(self)@.nodes.push(node@)
                },
                Err(e) => final(self)@ == old(self)@ && match e {
                    StoreError::DuplicateId => has_node(old(self)@.nodes, node.id),
                    StoreError::UnknownWorkflow => !has_node(old(self)@.nodes, node.id)
                        && !has_workflow(old(self)@.workflows, node.flow_instance_id),
                    StoreError::WorkflowClosed => !has_node(old(self)@.nodes, node.id)
                        && has_workflow(old(self)@.workflows, node.flow_instance_id)
                        && old(self)@.workflows[workflow_index(old(self)@.workflows, node.flow_instance_id)].status
                            != WorkflowStatus::Running,
                    StoreError::InvalidParent => !has_node(old(self)@.nodes, node.id)
                        && has_workflow(old(self)@.workflows, node.flow_instance_id)
                        && old(self)@.workflows[workflow_index(old(self)@.workflows, node.flow_instance_id)].status
                            == WorkflowStatus::Running
                        && !parent_ok(old(self)@.nodes, node@),
                    _ => false,
                },
            },
    {
        if self.find_node(node.id).is_some() {
            return Err(StoreError::DuplicateId);
        }
        match self.find_workflow(node.flow_instance_id) {
            None => {
                return Err(StoreError::UnknownWorkflow);
            },
            Some(wi) => {
                assert(wi == workflow_index(self@.workflows, node.flow_instance_id));
                if self.workflows[wi].status != WorkflowStatus::Running {
                    return Err(StoreError::WorkflowClosed);
                }
            },
        }
        match node.batch_parent_id {
            Some(p) => match self.find_node(p) {
                Some(j) => {
                    let pn = &self.nodes[j];
                    if !pn.is_parent || pn.flow_instance_id != node.flow_instance_id {
                        proof {
                            if parent_ok(self@.nodes, node@) {
                                let k = choose|k: int|
                                    0 <= k < self@.nodes.len() && #[trigger] self@.nodes[k].id == p
                                        && self@.nodes[k].is_parent
                                        && self@.nodes[k].flow_instance_id == node.flow_instance_id;
                                assert(k == j);
                            }
                        }
                        return Err(StoreError::InvalidParent);
                    }
                    assert(self@.nodes[j as int].id == p);
                },
                None => {
                    return Err(StoreError::InvalidParent);
                },
            },
            None => {},
        }
        let id = node.id;
        let ghost before = self@.nodes;
        let ghost flows = self@.workflows;
        self.nodes.push(node);
        proof {
            assert(self@.nodes =~= before.push(node@));
            assert forall|i: int| #![trigger self@.nodes[i]] 0 <= i < self@.nodes.len() implies has_workflow(
                flows,
                self@.nodes[i].flow_instance_id,
            ) && parent_ok(self@.nodes, self@.nodes[i]) by {
                if i < before.len() {
                    assert(parent_ok(before, before[i]));
                    match before[i].batch_parent_id {
                        Some(p) => {
                            let j = choose|j: int|
                                0 <= j < before.len() && #[trigger] before[j].id == p && before[j].is_parent
                                    && before[j].flow_instance_id == before[i].flow_instance_id;
                            assert(self@.nodes[j] == before[j]);
                        },
                        None => {},
                    }
                } else {
                    assert(self@.nodes[i] == node@);
                    match node.batch_parent_id {
                        Some(p) => {
                            let j = choose|j: int|
                                0 <= j < before.len() && #[trigger] before[j].id == p && before[j].is_parent
                                    && before[j].flow_instance_id == node.flow_instance_id;
                            assert(self@.nodes[j] == before[j]);
                        },
                        None => {},
                    }
                }
            }
        }
        Ok(id)
    }

    /// Writes the status, queue, meter and log of `node` into the stored node
    /// with the same identifier.
    pub fn update(&mut self, node: &NodeInstance) -> (r: Result<(), StoreError>)
        requires
            old(self).wf(),
        ensures
            final(self).wf(),
            final(self)@.workflows == old(self)@.workflows,
            match r {
                Ok(()) => has_node(old(self)@.nodes, node.id) && final(self)@.nodes
                    == old(self)@.nodes.update(
                    node_index(old(self)@.nodes, node.id),
                    with_dynamic(old(self)@.nodes[node_index(old(self)@.nodes, node.id)], node@),
                ),
                Err(e) => e == StoreError::NotFound && !has_node(old(self)@.nodes, node.id)
                    && final(self)@ == old(self)@,
            },
    {
        match self.find_node(node.id) {
            Some(i) => {
                self.write_dynamic(i, node.status, node.queue_id, node.resource_meter, node.log.clone());
                Ok(())
            },
            None => Err(StoreError::NotFound),
        }
    }

    /// Sets the dynamic fields of the node at position `i`.
    pub(crate) fn write_dynamic(
        &mut self,
        i: usize,
        status: NodeStatus,
        queue_id: Option<u128>,
        resource_meter: Option<ResourceMeter>,
        log: String,
    )
        requires
            old(self).wf(),
            i < old(self)@.nodes.len(),
        ensures
            final(self).wf(),
            final(self)@.workflows == old(self)@.workflows,
            i == node_index(old(self)@.nodes, old(self)@.nodes[i as int].id),
            final(self)@.nodes == old(self)@.nodes.update(
                i as int,
                NodeView {
                    status,
                    queue_id,
                    resource_meter,
                    log: log@,
                    ..old(self)@.nodes[i as int]
                },
            ),
    {
        let ghost before = self@.nodes;
        let ghost id = before[i as int].id;
        assert(has_node(before, id));
        assert(node_index(before, id) == i);
        let n = &mut self.nodes[i];
        n.status = status;
        n.queue_id = queue_id;
        n.resource_meter = resource_meter;
        n.log = log;
        proof {
            lemma_graph_ok_same_shape(before, self@.nodes, self@.workflows);
        }
        assert(self@.nodes =~= before.update(
            i as int,
            NodeView { status, queue_id, resource_meter, log: log@, ..before[i as int] },
        ));
    }

    /// The nodes that a filter selects, in store order.
    pub fn select_nodes(&self, f: NodeFilter) -> (r: Vec<NodeInstance>)
        ensures
            views(r@) == select(self@.nodes, f),
    {
        let ghost all = self@.nodes;
        let mut out: Vec<NodeInstance> = Vec::new();
        let mut i: usize = 0;
        while i < self.nodes.len()
            invariant
                i <= self.nodes.len(),
                all == views(self.nodes@),
                views(out@) == select(all.take(i as int), f),
            decreases self.nodes.len() - i,
        {
            let ghost prev = out@;
            proof {
                reveal(Seq::filter);
                assert(all.take(i + 1).drop_last() =~= all.take(i as int));
                assert(all.take(i + 1).last() == all[i as int]);
            }
            if f.test(&self.nodes[i]) {
                let n = self.nodes[i].duplicate();
                out.push(n);
                assert(views(out@) =~= views(prev).push(n@));
            }
            i = i + 1;
        }
        assert(all.take(self.nodes.len() as int) =~= all);
        out
    }

    pub fn get_node_sub_node_instances(&self, batch_parent_id: u128) -> (r: Vec<NodeInstance>)
        ensures
            views(r@) == children_of(self@.nodes, batch_parent_id),
    {
        self.select_nodes(NodeFilter::ChildrenOf(batch_parent_id))
    }

    pub fn get_all_workflow_instance_stand_by_nodes(&self, workflow_instance_id: u128) -> (r: Vec<
        NodeInstance,
    >)
        ensures
            views(r@) == select(self@.nodes, NodeFilter::StandbyOf(workflow_instance_id)),
    {
        self.select_nodes(NodeFilter::StandbyOf(workflow_instance_id))
    }

    pub fn get_all_workflow_instance_nodes(&self, workflow_instance_id: u128) -> (r: Vec<
        NodeInstance,
    >)
        ensures
            views(r@) == select(self@.nodes, NodeFilter::FlowOf(workflow_instance_id)),
    {
        self.select_nodes(NodeFilter::FlowOf(workflow_instance_id))
    }

    /// Entry-readiness gate for the workflow that owns `node_id`.
    pub fn is_all_same_entryment_nodes_success(&self, node_id: u128) -> (r: Result<bool, StoreError>)
        requires
            self.wf(),
        ensures
            match r {
                Ok(b) => has_node(self@.nodes, node_id) && b == entry_ready_spec(
                    self@.nodes,
                    self@.nodes[node_index(self@.nodes, node_id)].flow_instance_id,
                ),
                Err(e) => e == StoreError::NotFound && !has_node(self@.nodes, node_id),
            },
    {
        match self.find_node(node_id) {
            Some(i) => {
                let flow = self.nodes[i].flow_instance_id;
                assert(has_node(self@.nodes, node_id));
                assert(i == node_index(self@.nodes, node_id));
                Ok(entry_nodes_ready(&self.nodes, flow))
            },
            None => Err(StoreError::NotFound),
        }
    }

    /// Entry-readiness gate for workflow `flow`.
    pub fn entry_ready(&self, flow: u128) -> (r: bool)
        ensures
            r == entry_ready_spec(self@.nodes, flow),
    {
        entry_nodes_ready(&self.nodes, flow)
    }

    /// Position of a batch child among the children of its batch parent.
    pub fn get_nth_of_batch_tasks(&self, sub_node_id: u128) -> (r: Result<usize, StoreError>)
        requires
            self.wf(),
        ensures
            match r {
                Ok(k) => {
                    &&& has_node(self@.nodes, sub_node_id)
                    &&& self@.nodes[node_index(self@.nodes, sub_node_id)].batch_parent_id
                        is Some
                    &&& k == position_in(
                        children_of(
                            self@.nodes,
                            self@.nodes[node_index(
                                self@.nodes,
                                sub_node_id,
                            )].batch_parent_id->0,
                        ),
                        sub_node_id,
                    )
                    &&& k < children_of(
                        self@.nodes,
                        self@.nodes[node_index(self@.nodes, sub_node_id)].batch_parent_id->0,
                    ).len()
                },
                Err(e) => (e == StoreError::NotFound && !has_node(self@.nodes, sub_node_id)) || (e
                    == StoreError::NotABatchChild && has_node(self@.nodes, sub_node_id)
                    && self@.nodes[node_index(self@.nodes, sub_node_id)].batch_parent_id is None),
            },
    {
        match self.find_node(sub_node_id) {
            None => Err(StoreError::NotFound),
            Some(i) => {
                assert(has_node(self@.nodes, sub_node_id));
                assert(i == node_index(self@.nodes, sub_node_id));
                match self.nodes[i].batch_parent_id {
                    None => Err(StoreError::NotABatchChild),
                    Some(p) => {
                        let siblings = self.get_node_sub_node_instances(p);
                        let ghost sib = children_of(self@.nodes, p);
                        proof {
                            broadcast use vstd::seq_lib::group_filter_ensures;
                            assert(NodeFilter::ChildrenOf(p).selects(self@.nodes[i as int]));
                            assert(sib.contains(self@.nodes[i as int]));
                            lemma_filter_unique(self@.nodes, NodeFilter::ChildrenOf(p));
                        }
                        match batch_position(&siblings, sub_node_id) {
                            Some(k) => {
                                assert(sib[k as int].id == sub_node_id);
                                assert(siblings@[k as int]@ == sib[k as int]);
                                Ok(k)
                            },
                            None => {
                                proof {
                                    let j = choose|j: int| 0 <= j < sib.len() && sib[j] == self@.nodes[i as int];
                                    assert(siblings@[j]@ == sib[j]);
                                    assert(false);
                                }
                                Err(StoreError::NotFound)
                            },
                        }
                    },
                }
            },
        }
    }
}

impl NodeStore {
    /// Index of the workflow `id`.
    pub fn find_workflow(&self, id: u128) -> (r: Option<usize>)
        ensures
            match r {
                Some(i) => i < self@.workflows.len() && self@.workflows[i as int].id == id,
                None => !has_workflow(self@.workflows, id),
            },
    {
        let mut i: usize = 0;
        while i < self.workflows.len()
            invariant
                i <= self.workflows.len(),
                forall|j: int| 0 <= j < i ==> #[trigger] self.workflows@[j].id != id,
            decreases self.workflows.len() - i,
        {
            if self.workflows[i].id == id {
                return Some(i);
            }
            i = i + 1;
        }
        None
    }

    pub fn get_workflow(&self, id: u128) -> (r: Result<WorkflowInstance, StoreError>)
        ensures
            match r {
                Ok(w) => w.id == id && exists|i: int|
                    0 <= i < self@.workflows.len() && #[trigger] self@.workflows[i] == w,
                Err(e) => e == StoreError::NotFound && !has_workflow(self@.workflows, id),
            },
    {
        match self.find_workflow(id) {
            Some(i) => Ok(self.workflows[i]),
            None => Err(StoreError::NotFound),
        }
    }

    /// Registers a new running workflow instance.
    pub fn insert_workflow(&mut self, id: u128) -> (r: Result<(), StoreError>)
        requires
            old(self).wf(),
        ensures
            final(self).wf(),
            final(self)@.nodes == old(self)@.nodes,
            match r {
                Ok(()) => !has_workflow(old(self)@.workflows, id) && final(self)@.workflows
                    == old(self)@.workflows.push(WorkflowInstance { id, status: WorkflowStatus::Running }),
                Err(e) => e == StoreError::DuplicateId && has_workflow(old(self)@.workflows, id)
                    && final(self)@ == old(self)@,
            },
    {
        match self.find_workflow(id) {
            Some(_) => Err(StoreError::DuplicateId),
            None => {
                let ghost before = self@.workflows;
                self.workflows.push(WorkflowInstance { id, status: WorkflowStatus::Running });
                proof {
                    lemma_graph_ok_flows(self@.nodes, before, self@.workflows);
                }
                Ok(())
            },
        }
    }

    pub fn workflow_at(&self, i: usize) -> (r: WorkflowInstance)
        requires
            i < self@.workflows.len(),
        ensures
            r == self@.workflows[i as int],
    {
        self.workflows[i]
    }

    /// Sets the aggregate status of the workflow at position `i`.
    pub(crate) fn write_workflow_status(&mut self, i: usize, status: WorkflowStatus)
        requires
            old(self).wf(),
            i < old(self)@.workflows.len(),
        ensures
            final(self).wf(),
            final(self)@.nodes == old(self)@.nodes,
            final(self)@.workflows == old(self)@.workflows.update(
                i as int,
                WorkflowInstance { id: old(self)@.workflows[i as int].id, status },
            ),
    {
        let id = self.workflows[i].id;
        let ghost before = self@.workflows;
        self.workflows.set(i, WorkflowInstance { id, status });
        proof {
            lemma_graph_ok_flows(self@.nodes, before, self@.workflows);
        }
    }

    /// The aggregate outcome of workflow `flow`, once all its nodes are terminal.
    pub fn workflow_outcome(&self, flow: u128) -> (r: Option<WorkflowStatus>)
        ensures
            r == workflow_outcome_spec(self@.nodes, flow),
    {
        let ghost all = self@.nodes;
        let mut any_open = false;
        let mut any_failed = false;
        let mut any_running = false;
        let mut entry_failed = false;
        let mut i: usize = 0;
        while i < self.nodes.len()
            invariant
                i <= self.nodes.len(),
                all == self@.nodes,
                any_open == exists|k: int| 0 <= k < i && #[trigger] all[k].flow_instance_id == flow && !is_terminal(all[k].status),
                any_failed == exists|k: int| 0 <= k < i && #[trigger] all[k].flow_instance_id == flow && all[k].status == NodeStatus::Failed,
                any_running == exists|k: int| 0 <= k < i && #[trigger] all[k].flow_instance_id == flow && all[k].status == NodeStatus::Running,
                entry_failed == exists|k: int| 0 <= k < i && is_entry_of(#[trigger] all[k], flow) && all[k].status == NodeStatus::Failed,
            decreases self.nodes.len() - i,
        {
            let n = &self.nodes[i];
            assert(n@ == all[i as int]);
            if n.flow_instance_id == flow {
                match n.status {
                    NodeStatus::Standby => {
                        any_open = true;
                    },
                    NodeStatus::Running => {
                        any_open = true;
                        any_running = true;
                    },
                    NodeStatus::Failed => {
                        any_failed = true;
                        if n.batch_parent_id.is_none() {
                            entry_failed = true;
                        }
                    },
                    NodeStatus::Completed => {},
                }
            }
            proof {
                let x = all[i as int];
                if x.flow_instance_id == flow {
                    assert(all[i as int].flow_instance_id == flow);
                    assert(is_entry_of(all[i as int], flow) == x.batch_parent_id.is_none());
                }
            }
            i = i + 1;
        }
        if !any_open {
            if any_failed {
                Some(WorkflowStatus::Failed)
            } else {
                Some(WorkflowStatus::Completed)
            }
        } else if entry_failed && !any_running {
            Some(WorkflowStatus::Failed)
        } else {
            None
        }
    }
}

/// Every node of the workflow is terminal.
pub open spec fn flow_all_terminal(nodes: Seq<NodeView>, flow: u128) -> bool {
    forall|k: int| 0 <= k < nodes.len() && #[trigger] nodes[k].flow_instance_id == flow ==> is_terminal(nodes[k].status)
}

pub open spec fn flow_has_status(nodes: Seq<NodeView>, flow: u128, st: NodeStatus) -> bool {
    exists|k: int| 0 <= k < nodes.len() && #[trigger] nodes[k].flow_instance_id == flow && nodes[k].status == st
}

/// An entry node of the workflow has failed. The entry gate then stays shut,
/// so no other entry node, and no child of a parent that is not running, can
/// start any more.
pub open spec fn entry_failed(nodes: Seq<NodeView>, flow: u128) -> bool {
    exists|k: int| 0 <= k < nodes.len() && is_entry_of(#[trigger] nodes[k], flow) && nodes[k].status == NodeStatus::Failed
}

/// Once every node of a workflow is terminal, the workflow is Failed if one of
/// them failed and Completed otherwise. It is Failed as well once an entry node
/// has failed and no node is running: what is left can never start. Otherwise
/// it has no outcome yet.
pub open spec fn workflow_outcome_spec(nodes: Seq<NodeView>, flow: u128) -> Option<WorkflowStatus> {
    if flow_all_terminal(nodes, flow) {
        if flow_has_status(nodes, flow, NodeStatus::Failed) {
            Some(WorkflowStatus::Failed)
        } else {
            Some(WorkflowStatus::Completed)
        }
    } else if entry_failed(nodes, flow) && !flow_has_status(nodes, flow, NodeStatus::Running) {
        Some(WorkflowStatus::Failed)
    } else {
        None
    }
}


/// A change to the store, staged for a later commit.
#[derive(Debug)]
pub enum Staged {
    /// Add a new node.
    Insert(NodeInstance),
    /// Write the status, queue, meter and log of a stored node.
    Update(NodeInstance),
}

pub enum StagedView {
    Insert(NodeView),
    Update(NodeView),
}

impl View for Staged {
    type V = StagedView;

    open spec fn view(&self) -> StagedView {
        match self {
            Staged::Insert(n) => StagedView::Insert(n@),
            Staged::Update(n) => StagedView::Update(n@),
        }
    }
}

/// Changes staged for one commit, in the order they were made. Staging
/// touches no store.
pub struct Batch {
    staged: Vec<Staged>,
}

impl View for Batch {
    type V = Seq<StagedView>;

    closed spec fn view(&self) -> Seq<StagedView> {
        self.staged@.map_values(|m: Staged| m@)
    }
}

impl Batch {
    pub fn new() -> (r: Batch)
        ensures
            r@.len() == 0,
    {
        let r = Batch { staged: Vec::new() };
        assert(r@ =~= Seq::empty());
        r
    }

    /// Stages the insertion of `node` and returns its identifier.
    pub fn insert(&mut self, node: NodeInstance) -> (r: u128)
        ensures
            r == node.id,
            final(self)@ == old(self)@.push(StagedView::Insert(node@)),
    {
        let ghost before = self@;
        let id = node.id;
        let ghost v = node@;
        self.staged.push(Staged::Insert(node));
        assert(self@ =~= before.push(StagedView::Insert(v)));
        id
    }

    /// Stages a write of the status, queue, meter and log of `node`.
    pub fn update(&mut self, node: &NodeInstance)
        ensures
            final(self)@ == old(self)@.push(StagedView::Update(node@)),
    {
        let ghost before = self@;
        self.staged.push(Staged::Update(node.duplicate()));
        assert(self@ =~= before.push(StagedView::Update(node@)));
    }

    pub fn len(&self) -> (r: usize)
        ensures
            r == self@.len(),
    {
        self.staged.len()
    }
}

/// Adding `n`: its identifier must be new, its workflow known and running,
/// and its batch parent, if any, a stored parent of the same workflow.
pub open spec fn insert_result(nodes: Seq<NodeView>, flows: Seq<WorkflowInstance>, n: NodeView) -> Result<Seq<NodeView>, StoreError> {
    if has_node(nodes, n.id) {
        Err(StoreError::DuplicateId)
    } else if !has_workflow(flows, n.flow_instance_id) {
        Err(StoreError::UnknownWorkflow)
    } else if flows[workflow_index(flows, n.flow_instance_id)].status != WorkflowStatus::Running {
        Err(StoreError::WorkflowClosed)
    } else if !parent_ok(nodes, n) {
        Err(StoreError::InvalidParent)
    } else {
        Ok(nodes.push(n))
    }
}

pub open spec fn step_result(nodes: Seq<NodeView>, flows: Seq<WorkflowInstance>, m: StagedView) -> Result<Seq<NodeView>, StoreError> {
    match m {
        StagedView::Insert(n) => insert_result(nodes, flows, n),
        StagedView::Update(u) => if has_node(nodes, u.id) {
            let k = node_index(nodes, u.id);
            Ok(nodes.update(k, with_dynamic(nodes[k], u)))
        } else {
            Err(StoreError::NotFound)
        },
    }
}

/// The nodes after the staged changes, applied in order, or the error of the
/// first change that cannot be applied.
pub open spec fn apply_batch(nodes: Seq<NodeView>, flows: Seq<WorkflowInstance>, ms: Seq<StagedView>) -> Result<Seq<NodeView>, StoreError>
    decreases ms.len(),
{
    if ms.len() == 0 {
        Ok(nodes)
    } else {
        match apply_batch(nodes, flows, ms.drop_last()) {
            Ok(prev) => step_result(prev, flows, ms.last()),
            Err(e) => Err(e),
        }
    }
}

proof fn lemma_apply_batch_step(nodes: Seq<NodeView>, flows: Seq<WorkflowInstance>, ms: Seq<StagedView>, k: int)
    requires
        0 <= k < ms.len(),
    ensures
        apply_batch(nodes, flows, ms.take(k + 1)) == match apply_batch(nodes, flows, ms.take(k)) {
            Ok(prev) => step_result(prev, flows, ms[k]),
            Err(e) => Err(e),
        },
{
    assert(ms.take(k + 1).drop_last() =~= ms.take(k));
    assert(ms.take(k + 1).last() == ms[k]);
}

/// Once a prefix of the batch fails, the whole batch fails the same way.
proof fn lemma_apply_batch_err(nodes: Seq<NodeView>, flows: Seq<WorkflowInstance>, ms: Seq<StagedView>, k: int)
    requires
        0 <= k <= ms.len(),
        apply_batch(nodes, flows, ms.take(k)) is Err,
    ensures
        apply_batch(nodes, flows, ms) == apply_batch(nodes, flows, ms.take(k)),
    decreases ms.len() - k,
{
    if k == ms.len() {
        assert(ms.take(k) =~= ms);
    } else {
        lemma_apply_batch_step(nodes, flows, ms, k);
        lemma_apply_batch_err(nodes, flows, ms, k + 1);
    }
}

/// Identifier, parent flag and workflow of each node, in store order.
pub open spec fn shape_of(nodes: Seq<NodeView>) -> Seq<(u128, bool, u128)> {
    nodes.map_values(|n: NodeView| (n.id, n.is_parent, n.flow_instance_id))
}

fn shape_has(shape: &Vec<(u128, bool, u128)>, id: u128) -> (r: bool)
    ensures
        r == exists|i: int| 0 <= i < shape.len() && #[trigger] shape@[i].0 == id,
{
    let mut i: usize = 0;
    while i < shape.len()
        invariant
            i <= shape.len(),
            forall|j: int| 0 <= j < i ==> #[trigger] shape@[j].0 != id,
        decreases shape.len() - i,
    {
        if shape[i].0 == id {
            return true;
        }
        i = i + 1;
    }
    false
}

fn shape_has_parent(shape: &Vec<(u128, bool, u128)>, p: u128, flow: u128) -> (r: bool)
    ensures
        r == exists|i: int| 0 <= i < shape.len() && #[trigger] shape@[i] == (p, true, flow),
{
    let mut i: usize = 0;
    while i < shape.len()
        invariant
            i <= shape.len(),
            forall|j: int| 0 <= j < i ==> #[trigger] shape@[j] != (p, true, flow),
        decreases shape.len() - i,
    {
        let (a, b, c) = shape[i];
        if a == p && b && c == flow {
            return true;
        }
        i = i + 1;
    }
    false
}

impl NodeStore {
    /// Applies a batch atomically: every staged change in order when all of
    /// them can be applied, none of them otherwise, in which case the error
    /// is that of the first change that cannot.
    pub fn commit(&mut self, batch: Batch) -> (r: Result<(), StoreError>)
        requires
            old(self).wf(),
        ensures
            final(self).wf(),
            final(self)@.workflows == old(self)@.workflows,
            match apply_batch(old(self)@.nodes, old(self)@.workflows, batch@) {
                Ok(ns) => r is Ok && final(self)@.nodes == ns,
                Err(e) => r == Err::<(), StoreError>(e) && final(self)@ == old(self)@,
            },
    {
        let ghost ms = batch@;
        let ghost start = self@.nodes;
        let ghost flows = self@.workflows;
        let n = batch.staged.len();
        // check every change against the shape it will meet
        let mut shape: Vec<(u128, bool, u128)> = Vec::new();
        let mut i: usize = 0;
        while i < self.nodes.len()
            invariant
                i <= self.nodes.len(),
                shape@ == shape_of(views(self.nodes@)).take(i as int),
            decreases self.nodes.len() - i,
        {
            let nd = &self.nodes[i];
            shape.push((nd.id, nd.is_parent, nd.flow_instance_id));
            proof {
                assert(shape@ =~= shape_of(views(self.nodes@)).take(i + 1));
            }
            i = i + 1;
        }
        assert(shape@ =~= shape_of(start));
        let ghost mut cur = start;
        let mut k: usize = 0;
        while k < n
            invariant
                n == batch.staged.len(),
                ms == batch@,
                start == self@.nodes,
                flows == self@.workflows,
                self.wf(),
                self@ == old(self)@,
                k <= n,
                apply_batch(start, flows, ms.take(k as int)) == Ok::<Seq<NodeView>, StoreError>(cur),
                shape@ == shape_of(cur),
            decreases n - k,
        {
            proof {
                lemma_apply_batch_step(start, flows, ms, k as int);
                assert(ms[k as int] == batch.staged@[k as int]@);
            }
            match &batch.staged[k] {
                Staged::Insert(nd) => {
                    let ghost v = nd@;
                    let dup = shape_has(&shape, nd.id);
                    proof {
                        if has_node(cur, v.id) {
                            let j = choose|j: int| 0 <= j < cur.len() && #[trigger] cur[j].id == v.id;
                            assert(shape@[j].0 == v.id);
                        }
                        if dup {
                            let j = choose|j: int| 0 <= j < shape.len() && #[trigger] shape@[j].0 == v.id;
                            assert(cur[j].id == v.id);
                        }
                    }
                    let failure = if dup {
                        Some(StoreError::DuplicateId)
                    } else {
                        match self.find_workflow(nd.flow_instance_id) {
                            None => Some(StoreError::UnknownWorkflow),
                            Some(wi) => {
                                assert(wi == workflow_index(flows, v.flow_instance_id));
                                if self.workflows[wi].status != WorkflowStatus::Running {
                                    Some(StoreError::WorkflowClosed)
                                } else {
                                    match nd.batch_parent_id {
                                        None => None,
                                        Some(p) => {
                                            let found = shape_has_parent(&shape, p, nd.flow_instance_id);
                                            proof {
                                                if parent_ok(cur, v) {
                                                    let j = choose|j: int| 0 <= j < cur.len() && #[trigger] cur[j].id == p && cur[j].is_parent && cur[j].flow_instance_id == v.flow_instance_id;
                                                    assert(shape@[j] == (p, true, v.flow_instance_id));
                                                }
                                                if found {
                                                    let j = choose|j: int| 0 <= j < shape.len() && #[trigger] shape@[j] == (p, true, v.flow_instance_id);
                                                    assert(cur[j].id == p);
                                                }
                                            }
                                            if found {
                                                None
                                            } else {
                                                Some(StoreError::InvalidParent)
                                            }
                                        },
                                    }
                                }
                            },
                        }
                    };
                    match failure {
                        Some(e) => {
                            proof {
                                lemma_apply_batch_err(start, flows, ms, k + 1);
                            }
                            return Err(e);
                        },
                        None => {
                            shape.push((nd.id, nd.is_parent, nd.flow_instance_id));
                            proof {
                                cur = cur.push(v);
                                assert(shape@ =~= shape_of(cur));
                            }
                        },
                    }
                },
                Staged::Update(u) => {
                    let ghost v = u@;
                    let known = shape_has(&shape, u.id);
                    proof {
                        if has_node(cur, v.id) {
                            let j = choose|j: int| 0 <= j < cur.len() && #[trigger] cur[j].id == v.id;
                            assert(shape@[j].0 == v.id);
                        }
                        if known {
                            let j = choose|j: int| 0 <= j < shape.len() && #[trigger] shape@[j].0 == v.id;
                            assert(cur[j].id == v.id);
                        }
                    }
                    if !known {
                        proof {
                            lemma_apply_batch_err(start, flows, ms, k + 1);
                        }
                        return Err(StoreError::NotFound);
                    }
                    proof {
                        let j = node_index(cur, v.id);
                        cur = cur.update(j, with_dynamic(cur[j], v));
                        assert(shape@ =~= shape_of(cur));
                    }
                },
            }
            k = k + 1;
        }
        assert(ms.take(n as int) =~= ms);
        // every change applies: write them in order
        let ghost target = cur;
        let ghost mut done = start;
        let mut k: usize = 0;
        while k < n
            invariant
                n == batch.staged.len(),
                ms == batch@,
                flows == self@.workflows,
                self.wf(),
                k <= n,
                apply_batch(start, flows, ms) == Ok::<Seq<NodeView>, StoreError>(target),
                apply_batch(start, flows, ms.take(k as int)) == Ok::<Seq<NodeView>, StoreError>(self@.nodes),
            decreases n - k,
        {
            proof {
                lemma_apply_batch_step(start, flows, ms, k as int);
                assert(ms[k as int] == batch.staged@[k as int]@);
                if apply_batch(start, flows, ms.take(k + 1)) is Err {
                    lemma_apply_batch_err(start, flows, ms, k + 1);
                }
            }
            match &batch.staged[k] {
                Staged::Insert(nd) => {
                    let res = self.insert_now(nd.duplicate());
                },
                Staged::Update(u) => {
                    let res = self.update(u);
                },
            }
            k = k + 1;
        }
        assert(ms.take(n as int) =~= ms);
        Ok(())
    }
}

/// A selection from nodes with unique identifiers keeps them unique.
pub proof fn lemma_filter_unique(nodes: Seq<NodeView>, f: NodeFilter)
    requires
        ids_unique(nodes),
    ensures
        ids_unique(select(nodes, f)),
        forall|k: int| 0 <= k < select(nodes, f).len() ==> nodes.contains(#[trigger] select(nodes, f)[k]),
    decreases nodes.len(),
{
    reveal(Seq::filter);
    if nodes.len() > 0 {
        let rest = nodes.drop_last();
        assert(ids_unique(rest));
        lemma_filter_unique(rest, f);
        let s = select(nodes, f);
        let r = select(rest, f);
        assert forall|k: int| 0 <= k < r.len() implies nodes.contains(#[trigger] r[k]) by {
            let j = choose|j: int| 0 <= j < rest.len() && rest[j] == r[k];
            assert(nodes[j] == r[k]);
        }
        if f.selects(nodes.last()) {
            assert(s == r.push(nodes.last()));
            assert forall|k: int| 0 <= k < r.len() implies #[trigger] r[k].id != nodes.last().id by {
                let j = choose|j: int| 0 <= j < rest.len() && rest[j] == r[k];
                assert(nodes[j] == r[k]);
                assert(j != nodes.len() - 1);
            }
            assert(nodes.contains(nodes.last())) by {
                assert(nodes[nodes.len() - 1] == nodes.last());
            }
        }
    }
}

/// Two node sequences that agree on identifiers and batch parents, position
/// by position, have children that agree on identifiers too.
pub(crate) proof fn lemma_children_ids_match(a: Seq<NodeView>, b: Seq<NodeView>, p: u128)
    requires
        a.len() == b.len(),
        forall|i: int| 0 <= i < a.len() ==> #[trigger] a[i].id == b[i].id && a[i].batch_parent_id == b[i].batch_parent_id,
    ensures
        children_of(a, p).len() == children_of(b, p).len(),
        forall|k: int| 0 <= k < children_of(a, p).len() ==> #[trigger] children_of(a, p)[k].id == children_of(b, p)[k].id,
    decreases a.len(),
{
    reveal(Seq::filter);
    if a.len() > 0 {
        assert forall|i: int| 0 <= i < a.drop_last().len() implies #[trigger] a.drop_last()[i].id == b.drop_last()[i].id
            && a.drop_last()[i].batch_parent_id == b.drop_last()[i].batch_parent_id by {
            assert(a.drop_last()[i] == a[i]);
            assert(b.drop_last()[i] == b[i]);
        }
        lemma_children_ids_match(a.drop_last(), b.drop_last(), p);
        assert(a.last().id == b.last().id && a.last().batch_parent_id == b.last().batch_parent_id) by {
            assert(a[a.len() - 1] == a.last());
            assert(b[b.len() - 1] == b.last());
        }
    }
}

/// A batch child's position among its siblings lies in `[0, n)` for `n`
/// siblings, and updating any node (status, queue, meter, log) leaves it
/// where it was: only inserting nodes can move it.
pub proof fn lemma_batch_position_stable(nodes: Seq<NodeView>, i: int, u: NodeView, p: u128, id: u128)
    requires
        ids_unique(nodes),
        0 <= i < nodes.len(),
        exists|k: int| 0 <= k < children_of(nodes, p).len() && #[trigger] children_of(nodes, p)[k].id == id,
    ensures
        ({
            let after = nodes.update(i, with_dynamic(nodes[i], u));
            &&& 0 <= position_in(children_of(nodes, p), id) < children_of(nodes, p).len()
            &&& children_of(after, p).len() == children_of(nodes, p).len()
            &&& position_in(children_of(after, p), id) == position_in(children_of(nodes, p), id)
        }),
{
    let after = nodes.update(i, with_dynamic(nodes[i], u));
    assert forall|j: int| 0 <= j < nodes.len() implies #[trigger] nodes[j].id == after[j].id && nodes[j].batch_parent_id == after[j].batch_parent_id by {
        if j != i {
            assert(after[j] == nodes[j]);
        }
    }
    lemma_children_ids_match(nodes, after, p);
    assert(ids_unique(after)) by {
        assert forall|x: int, y: int| 0 <= x < after.len() && 0 <= y < after.len() && x != y implies #[trigger] after[x].id != #[trigger] after[y].id by {
            assert(nodes[x].id == after[x].id);
            assert(nodes[y].id == after[y].id);
        }
    }
    lemma_filter_unique(nodes, NodeFilter::ChildrenOf(p));
    lemma_filter_unique(after, NodeFilter::ChildrenOf(p));
    let ca = children_of(nodes, p);
    let cb = children_of(after, p);
    let ka = position_in(ca, id);
    assert(0 <= ka < ca.len() && ca[ka].id == id);
    assert(cb[ka].id == id);
    let kb = position_in(cb, id);
    assert(0 <= kb < cb.len() && cb[kb].id == id);
    assert(ka == kb);
}

} // verus!
