use vstd::prelude::*;
use crate::model::{NodeInstance, NodeStatus, NodeView, is_terminal, views};

verus! {

/// Result of evaluating a fan-in join over the children of a batch parent.
#[derive(Clone, Copy, PartialEq, Eq, Structural, Debug)]
pub enum JoinOutcome {
    /// Some child is still Standby or Running.
    Pending,
    /// Every child is Completed.
    Completed,
    /// Every child is terminal and at least one is Failed.
    Failed,
}

/// Entry nodes of a workflow are those without a batch parent.
pub open spec fn is_entry_of(n: NodeView, flow: u128) -> bool {
    n.flow_instance_id == flow && n.batch_parent_id.is_none()
}

/// No entry node of the workflow is Running or Failed.
pub open spec fn entry_ready_spec(nodes: Seq<NodeView>, flow: u128) -> bool {
    forall|i: int|
        0 <= i < nodes.len() && is_entry_of(#[trigger] nodes[i], flow) ==> (nodes[i].status
            == NodeStatus::Completed || nodes[i].status == NodeStatus::Standby)
}

pub open spec fn all_terminal(children: Seq<NodeView>) -> bool {
    forall|i: int| 0 <= i < children.len() ==> is_terminal(#[trigger] children[i].status)
}

pub open spec fn all_completed(children: Seq<NodeView>) -> bool {
    forall|i: int| 0 <= i < children.len() ==> #[trigger] children[i].status == NodeStatus::Completed
}

/// The join decided from the children's current states alone.
pub open spec fn join_spec(children: Seq<NodeView>) -> JoinOutcome {
    if !all_terminal(children) {
        JoinOutcome::Pending
    } else if all_completed(children) {
        JoinOutcome::Completed
    } else {
        JoinOutcome::Failed
    }
}

/// Entry-readiness gate over the nodes of one workflow (and possibly others).
pub fn entry_nodes_ready(nodes: &Vec<NodeInstance>, flow: u128) -> (r: bool)
    ensures
        r == entry_ready_spec(views(nodes@), flow),
{
    let ghost vs = views(nodes@);
    let mut i: usize = 0;
    while i < nodes.len()
        invariant
            i <= nodes.len(),
            vs == views(nodes@),
            forall|k: int|
                0 <= k < i && is_entry_of(#[trigger] vs[k], flow) ==> (vs[k].status
                    == NodeStatus::Completed || vs[k].status == NodeStatus::Standby),
        decreases nodes.len() - i,
    {
        let n = &nodes[i];
        if n.flow_instance_id == flow && n.batch_parent_id.is_none() {
            match n.status {
                NodeStatus::Running | NodeStatus::Failed => {
                    assert(is_entry_of(vs[i as int], flow));
                    return false;
                },
                _ => {},
            }
        }
        i = i + 1;
    }
    true
}

/// Fan-in join over the given children.
pub fn fan_in_join(children: &Vec<NodeInstance>) -> (r: JoinOutcome)
    ensures
        r == join_spec(views(children@)),
{
    let ghost vs = views(children@);
    let mut any_failed = false;
    let mut i: usize = 0;
    while i < children.len()
        invariant
            i <= children.len(),
            vs == views(children@),
            forall|k: int| 0 <= k < i ==> is_terminal(#[trigger] vs[k].status),
            any_failed == exists|k: int| 0 <= k < i && #[trigger] vs[k].status == NodeStatus::Failed,
        decreases children.len() - i,
    {
        match children[i].status {
            NodeStatus::Standby | NodeStatus::Running => {
                assert(!is_terminal(vs[i as int].status));
                return JoinOutcome::Pending;
            },
            NodeStatus::Failed => {
                any_failed = true;
            },
            NodeStatus::Completed => {},
        }
        i = i + 1;
    }
    if any_failed {
        JoinOutcome::Failed
    } else {
        assert(all_completed(vs)) by {
            assert forall|k: int| 0 <= k < vs.len() implies #[trigger] vs[k].status
                == NodeStatus::Completed by {
                assert(is_terminal(vs[k].status));
            }
        }
        JoinOutcome::Completed
    }
}

/// Zero-based index of the node `id` among `siblings`.
pub fn batch_position(siblings: &Vec<NodeInstance>, id: u128) -> (r: Option<usize>)
    ensures
        match r {
            Some(k) => k < siblings.len() && siblings@[k as int].id == id && forall|j: int|
                0 <= j < k ==> #[trigger] siblings@[j].id != id,
            None => forall|j: int| 0 <= j < siblings.len() ==> #[trigger] siblings@[j].id != id,
        },
{
    let mut i: usize = 0;
    while i < siblings.len()
        invariant
            i <= siblings.len(),
            forall|j: int| 0 <= j < i ==> #[trigger] siblings@[j].id != id,
        decreases siblings.len() - i,
    {
        if siblings[i].id == id {
            return Some(i);
        }
        i = i + 1;
    }
    None
}

/// The join depends on which child states are present, not on the order in
/// which the children are listed or in which their events arrived.
pub proof fn lemma_join_order_independent(a: Seq<NodeView>, b: Seq<NodeView>)
    requires
        a.to_multiset() == b.to_multiset(),
    ensures
        join_spec(a) == join_spec(b),
{
    a.to_multiset_ensures();
    b.to_multiset_ensures();
    assert forall|x: NodeView| a.contains(x) implies b.contains(x) by {
        assert(a.to_multiset().count(x) > 0);
        assert(b.to_multiset().count(x) > 0);
    }
    assert forall|x: NodeView| b.contains(x) implies a.contains(x) by {
        assert(b.to_multiset().count(x) > 0);
        assert(a.to_multiset().count(x) > 0);
    }
    assert(all_terminal(a) <==> all_terminal(b)) by {
        if all_terminal(a) {
            assert forall|i: int| 0 <= i < b.len() implies is_terminal(#[trigger] b[i].status) by {
                assert(b.contains(b[i]));
                let j = choose|j: int| 0 <= j < a.len() && a[j] == b[i];
                assert(is_terminal(a[j].status));
            }
        }
        if all_terminal(b) {
            assert forall|i: int| 0 <= i < a.len() implies is_terminal(#[trigger] a[i].status) by {
                assert(a.contains(a[i]));
                let j = choose|j: int| 0 <= j < b.len() && b[j] == a[i];
                assert(is_terminal(b[j].status));
            }
        }
    }
    assert(all_completed(a) <==> all_completed(b)) by {
        if all_completed(a) {
            assert forall|i: int| 0 <= i < b.len() implies #[trigger] b[i].status == NodeStatus::Completed by {
                assert(b.contains(b[i]));
                let j = choose|j: int| 0 <= j < a.len() && a[j] == b[i];
                assert(a[j].status == NodeStatus::Completed);
            }
        }
        if all_completed(b) {
            assert forall|i: int| 0 <= i < a.len() implies #[trigger] a[i].status == NodeStatus::Completed by {
                assert(a.contains(a[i]));
                let j = choose|j: int| 0 <= j < b.len() && b[j] == a[i];
                assert(b[j].status == NodeStatus::Completed);
            }
        }
    }
}

/// A parent's join is Completed exactly when every child is Completed, and
/// Failed exactly when every child is terminal and one of them is Failed.
pub proof fn lemma_join_cases(children: Seq<NodeView>)
    ensures
        (join_spec(children) == JoinOutcome::Completed) <==> all_completed(children),
        (join_spec(children) == JoinOutcome::Failed) <==> (all_terminal(children) && exists|i: int|
            0 <= i < children.len() && #[trigger] children[i].status == NodeStatus::Failed),
{
    if all_completed(children) {
        assert forall|i: int| 0 <= i < children.len() implies is_terminal(#[trigger] children[i].status) by {
            assert(children[i].status == NodeStatus::Completed);
        }
    }
    if all_terminal(children) && !all_completed(children) {
        let i = choose|i: int| 0 <= i < children.len() && #[trigger] children[i].status != NodeStatus::Completed;
        assert(is_terminal(children[i].status));
    }
}

/// The entry gate fails exactly when some entry node of the workflow is
/// Running or Failed; with no entry nodes at all it holds.
pub proof fn lemma_entry_gate(nodes: Seq<NodeView>, flow: u128)
    ensures
        !entry_ready_spec(nodes, flow) <==> exists|i: int|
            0 <= i < nodes.len() && is_entry_of(#[trigger] nodes[i], flow) && (nodes[i].status
                == NodeStatus::Running || nodes[i].status == NodeStatus::Failed),
        (forall|i: int| 0 <= i < nodes.len() ==> !is_entry_of(#[trigger] nodes[i], flow))
            ==> entry_ready_spec(nodes, flow),
{
}

} // verus!
