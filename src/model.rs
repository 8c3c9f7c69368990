use vstd::prelude::*;

verus! {

/// Lifecycle state of a node instance.
#[derive(Clone, Copy, PartialEq, Eq, Structural, Debug)]
pub enum NodeStatus {
    Standby,
    Running,
    Completed,
    Failed,
}

/// Tag that selects how a node is started.
#[derive(Clone, Copy, PartialEq, Eq, Structural, Debug)]
pub enum NodeKind {
    NoAction,
    Script,
    SoftwareComputing,
}

/// Aggregate state of a workflow instance.
#[derive(Clone, Copy, PartialEq, Eq, Structural, Debug)]
pub enum WorkflowStatus {
    Running,
    Completed,
    Failed,
}

/// Usage figures reported by a compute queue for one node.
#[derive(Clone, Copy, PartialEq, Eq, Structural, Debug)]
pub struct ResourceMeter {
    pub cpu_seconds: u64,
    pub memory_bytes: u64,
    pub wall_seconds: u64,
}

/// One node of a materialized workflow graph.
#[derive(Debug)]
pub struct NodeInstance {
    pub id: u128,
    pub name: String,
    pub flow_instance_id: u128,
    pub kind: NodeKind,
    pub status: NodeStatus,
    pub is_parent: bool,
    pub batch_parent_id: Option<u128>,
    pub queue_id: Option<u128>,
    pub resource_meter: Option<ResourceMeter>,
    pub log: String,
}

/// Mathematical value of a node: its strings seen as character sequences.
pub struct NodeView {
    pub id: u128,
    pub name: Seq<char>,
    pub flow_instance_id: u128,
    pub kind: NodeKind,
    pub status: NodeStatus,
    pub is_parent: bool,
    pub batch_parent_id: Option<u128>,
    pub queue_id: Option<u128>,
    pub resource_meter: Option<ResourceMeter>,
    pub log: Seq<char>,
}

impl View for NodeInstance {
    type V = NodeView;

    open spec fn view(&self) -> NodeView {
        NodeView {
            id: self.id,
            name: self.name@,
            flow_instance_id: self.flow_instance_id,
            kind: self.kind,
            status: self.status,
            is_parent: self.is_parent,
            batch_parent_id: self.batch_parent_id,
            queue_id: self.queue_id,
            resource_meter: self.resource_meter,
            log: self.log@,
        }
    }
}

/// One execution of a workflow graph; its nodes live in the node store.
#[derive(Clone, Copy, PartialEq, Eq, Structural, Debug)]
pub struct WorkflowInstance {
    pub id: u128,
    pub status: WorkflowStatus,
}

/// The values of a sequence of nodes.
pub open spec fn views(s: Seq<NodeInstance>) -> Seq<NodeView> {
    s.map_values(|n: NodeInstance| n@)
}

pub open spec fn is_terminal(s: NodeStatus) -> bool {
    s == NodeStatus::Completed || s == NodeStatus::Failed
}

/// Position of a status in the monotonic order Standby < Running < terminal.
pub open spec fn status_rank(s: NodeStatus) -> int {
    match s {
        NodeStatus::Standby => 0,
        NodeStatus::Running => 1,
        NodeStatus::Completed => 2,
        NodeStatus::Failed => 2,
    }
}

/// A status change is legal when it moves forward, or when a running node
/// reports progress while staying running.
pub open spec fn legal_transition(from: NodeStatus, to: NodeStatus) -> bool {
    status_rank(from) < status_rank(to) || (from == NodeStatus::Running && to
        == NodeStatus::Running)
}

pub fn status_is_terminal(s: NodeStatus) -> (r: bool)
    ensures
        r == is_terminal(s),
{
    match s {
        NodeStatus::Completed | NodeStatus::Failed => true,
        _ => false,
    }
}

pub fn is_legal_transition(from: NodeStatus, to: NodeStatus) -> (r: bool)
    ensures
        r == legal_transition(from, to),
{
    match (from, to) {
        (NodeStatus::Standby, NodeStatus::Standby) => false,
        (NodeStatus::Standby, _) => true,
        (NodeStatus::Running, NodeStatus::Standby) => false,
        (NodeStatus::Running, _) => true,
        _ => false,
    }
}

impl NodeInstance {
    /// A fresh node in the Standby state with an empty log.
    pub fn new(
        id: u128,
        name: String,
        flow_instance_id: u128,
        kind: NodeKind,
        is_parent: bool,
        batch_parent_id: Option<u128>,
    ) -> (r: NodeInstance)
        ensures
            r.id == id,
            r.name == name,
            r.flow_instance_id == flow_instance_id,
            r.kind == kind,
            r.status == NodeStatus::Standby,
            r.is_parent == is_parent,
            r.batch_parent_id == batch_parent_id,
            r.queue_id.is_none(),
            r.resource_meter.is_none(),
            r.log@.len() == 0,
    {
        NodeInstance {
            id,
            name,
            flow_instance_id,
            kind,
            status: NodeStatus::Standby,
            is_parent,
            batch_parent_id,
            queue_id: None,
            resource_meter: None,
            log: String::new(),
        }
    }

    /// A copy of this node, field for field.
    pub fn duplicate(&self) -> (r: NodeInstance)
        ensures
            r@ == self@,
    {
        NodeInstance {
            id: self.id,
            name: self.name.clone(),
            flow_instance_id: self.flow_instance_id,
            kind: self.kind,
            status: self.status,
            is_parent: self.is_parent,
            batch_parent_id: self.batch_parent_id,
            queue_id: self.queue_id,
            resource_meter: self.resource_meter,
            log: self.log.clone(),
        }
    }
}

} // verus!
