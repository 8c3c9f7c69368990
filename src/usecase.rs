use vstd::prelude::*;
use crate::model::{NodeInstance, NodeKind};

verus! {

/// A unit of work handed to a compute queue on behalf of one node.
#[derive(Clone, Copy, PartialEq, Eq, Structural, Debug)]
pub struct Task {
    pub node_id: u128,
    pub queue_id: u128,
    pub kind: NodeKind,
    /// For a batch child, its slot in the parent's fan-out.
    pub shard: Option<usize>,
}

/// How a node of one kind is started.
#[derive(Clone, Copy, PartialEq, Eq, Structural, Debug)]
pub enum Usecase {
    NoAction,
    Script { queue_id: u128 },
    SoftwareComputing { queue_id: u128 },
}

/// What starting a node asks for.
#[derive(Clone, Copy, PartialEq, Eq, Structural, Debug)]
pub enum StartOutcome {
    /// The node is done at once; nothing is submitted.
    ImmediatelyCompleted,
    /// The task must be leased a queue slot and dispatched.
    DispatchRequest(Task),
}

pub open spec fn kind_index(k: NodeKind) -> int {
    match k {
        NodeKind::NoAction => 0,
        NodeKind::Script => 1,
        NodeKind::SoftwareComputing => 2,
    }
}

impl Usecase {
    /// The kind of node this strategy starts.
    pub open spec fn serves(self, k: NodeKind) -> bool {
        match self {
            Usecase::NoAction => k == NodeKind::NoAction,
            Usecase::Script { .. } => k == NodeKind::Script,
            Usecase::SoftwareComputing { .. } => k == NodeKind::SoftwareComputing,
        }
    }

    pub open spec fn start_spec(self, node_id: u128, kind: NodeKind, shard: Option<usize>) -> StartOutcome {
        match self {
            Usecase::NoAction => StartOutcome::ImmediatelyCompleted,
            Usecase::Script { queue_id } => StartOutcome::DispatchRequest(
                Task { node_id, queue_id, kind, shard },
            ),
            Usecase::SoftwareComputing { queue_id } => StartOutcome::DispatchRequest(
                Task { node_id, queue_id, kind, shard },
            ),
        }
    }

    /// Starts `node`: a no-op completes at once, the other kinds ask for
    /// their queue.
    pub fn start(&self, node: &NodeInstance, shard: Option<usize>) -> (r: StartOutcome)
        ensures
            r == self.start_spec(node.id, node.kind, shard),
    {
        match *self {
            Usecase::NoAction => StartOutcome::ImmediatelyCompleted,
            Usecase::Script { queue_id } => StartOutcome::DispatchRequest(
                Task { node_id: node.id, queue_id, kind: node.kind, shard },
            ),
            Usecase::SoftwareComputing { queue_id } => StartOutcome::DispatchRequest(
                Task { node_id: node.id, queue_id, kind: node.kind, shard },
            ),
        }
    }
}

/// A registry, built once, from node kind to strategy.
pub struct UsecaseSelector {
    table: Vec<Usecase>,
}

impl View for UsecaseSelector {
    type V = Seq<Usecase>;

    closed spec fn view(&self) -> Seq<Usecase> {
        self.table@
    }
}

impl UsecaseSelector {
    /// Each kind has its own entry, and that entry serves it.
    pub open spec fn wf(&self) -> bool {
        &&& self@.len() == 3
        &&& forall|k: NodeKind| #[trigger] self@[kind_index(k)].serves(k)
    }

    /// The strategy registered for `k`.
    pub open spec fn usecase_for(&self, k: NodeKind) -> Usecase {
        self@[kind_index(k)]
    }

    /// Scripts go to `script_queue`, software computing to `computing_queue`.
    pub fn new(script_queue: u128, computing_queue: u128) -> (r: UsecaseSelector)
        ensures
            r.wf(),
            r.usecase_for(NodeKind::NoAction) == Usecase::NoAction,
            r.usecase_for(NodeKind::Script) == (Usecase::Script { queue_id: script_queue }),
            r.usecase_for(NodeKind::SoftwareComputing) == (Usecase::SoftwareComputing {
                queue_id: computing_queue,
            }),
    {
        let mut table: Vec<Usecase> = Vec::new();
        table.push(Usecase::NoAction);
        table.push(Usecase::Script { queue_id: script_queue });
        table.push(Usecase::SoftwareComputing { queue_id: computing_queue });
        let r = UsecaseSelector { table };
        assert forall|k: NodeKind| #[trigger] r@[kind_index(k)].serves(k) by {
            match k {
                NodeKind::NoAction => {},
                NodeKind::Script => {},
                NodeKind::SoftwareComputing => {},
            }
        }
        r
    }

    /// Looks up the strategy for `kind` in the table.
    pub fn select(&self, kind: NodeKind) -> (r: Usecase)
        requires
            self.wf(),
        ensures
            r == self.usecase_for(kind),
            r.serves(kind),
    {
        let i: usize = match kind {
            NodeKind::NoAction => 0,
            NodeKind::Script => 1,
            NodeKind::SoftwareComputing => 2,
        };
        self.table[i]
    }
}

} // verus!
