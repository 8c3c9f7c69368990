use vstd::prelude::*;
use crate::engine::{EngineView, Orchestrator, leases_live};
use crate::model::{
    NodeStatus, NodeView, ResourceMeter, WorkflowInstance, WorkflowStatus, is_terminal,
    is_legal_transition, legal_transition, status_is_terminal,
};
use crate::predicates::{JoinOutcome, all_terminal, fan_in_join, join_spec};
use crate::queue::{holds, released, lemma_released_facts, lemma_release_twice};
use crate::store::{
    NodeFilter, children_of, has_node, workflow_index, lemma_filter_unique, has_workflow, ids_unique, node_index, workflow_outcome_spec,
};

verus! {

/// A completion or progress report about one node.
pub struct StatusEvent {
    pub node_id: u128,
    pub status: NodeStatus,
    pub resource_meter: Option<ResourceMeter>,
    pub log_append: Option<String>,
}

pub struct EventView {
    pub node_id: u128,
    pub status: NodeStatus,
    pub resource_meter: Option<ResourceMeter>,
    pub log_append: Option<Seq<char>>,
}

impl View for StatusEvent {
    type V = EventView;

    open spec fn view(&self) -> EventView {
        EventView {
            node_id: self.node_id,
            status: self.status,
            resource_meter: self.resource_meter,
            log_append: match self.log_append {
                Some(t) => Some(t@),
                None => None,
            },
        }
    }
}

/// Why a claimed node could not be started.
#[derive(Clone, Copy, PartialEq, Eq, Structural, Debug)]
pub enum StartFailure {
    /// Its inputs could not be staged.
    Staging,
    /// Its task could not be handed to the queue.
    Dispatch,
}

pub open spec fn failure_prefix(f: StartFailure) -> Seq<char> {
    match f {
        StartFailure::Staging => "staging failed: "@,
        StartFailure::Dispatch => "dispatch failed: "@,
    }
}

/// The event that records a failed start of `node_id`.
pub open spec fn failure_event(node_id: u128, f: StartFailure, detail: Seq<char>) -> EventView {
    EventView {
        node_id,
        status: NodeStatus::Failed,
        resource_meter: None,
        log_append: Some(failure_prefix(f) + detail),
    }
}

/// What became of an event.
#[derive(Clone, Copy, PartialEq, Eq, Structural, Debug)]
pub enum Disposition {
    Applied,
    /// The node is already in the reported terminal status.
    Duplicate,
    /// The reported status may not follow the node's current one.
    InvalidTransition,
    /// No node has the reported identifier.
    NotFound,
}

/// Usage to bill for one node.
#[derive(Clone, Copy, PartialEq, Eq, Structural, Debug)]
pub struct BillingRecord {
    pub node_id: u128,
    pub resource_meter: ResourceMeter,
}

/// The effects of handling one event that the caller acts on.
#[derive(Clone, Copy, PartialEq, Eq, Structural, Debug)]
pub struct ReceiveOutcome {
    pub disposition: Disposition,
    /// Record to send to billing.
    pub billing: Option<BillingRecord>,
    /// Workflow whose scheduler must run again.
    pub reschedule: Option<u128>,
    /// Whether the node gave back a queue lease.
    pub lease_released: bool,
    /// The status the batch parent took when its join resolved.
    pub parent_status: Option<NodeStatus>,
    /// The status the workflow took when its last node became terminal.
    pub workflow_status: Option<WorkflowStatus>,
}

pub open spec fn ignored(d: Disposition) -> ReceiveOutcome {
    ReceiveOutcome {
        disposition: d,
        billing: None,
        reschedule: None,
        lease_released: false,
        parent_status: None,
        workflow_status: None,
    }
}

pub open spec fn log_after(log: Seq<char>, ev: EventView) -> Seq<char> {
    match ev.log_append {
        Some(t) => log + t,
        None => log,
    }
}

pub open spec fn node_after(n: NodeView, ev: EventView) -> NodeView {
    NodeView {
        status: ev.status,
        resource_meter: if ev.resource_meter is Some {
            ev.resource_meter
        } else {
            n.resource_meter
        },
        log: log_after(n.log, ev),
        ..n
    }
}

pub open spec fn join_status(j: JoinOutcome) -> NodeStatus {
    if j == JoinOutcome::Completed {
        NodeStatus::Completed
    } else {
        NodeStatus::Failed
    }
}


/// The join of `parent`, if the event's node is a terminal batch child whose
/// parent is not terminal yet and whose children are all terminal now.
pub open spec fn resolved_parent(nodes: Seq<NodeView>, parent: Option<u128>) -> Option<NodeStatus> {
    match parent {
        Some(p) => if has_node(nodes, p) && !is_terminal(nodes[node_index(nodes, p)].status)
            && join_spec(children_of(nodes, p)) != JoinOutcome::Pending {
            Some(join_status(join_spec(children_of(nodes, p))))
        } else {
            None
        },
        None => None,
    }
}

/// The aggregate status a running workflow takes once all its nodes are terminal.
pub open spec fn settled_workflow(flows: Seq<WorkflowInstance>, nodes: Seq<NodeView>, flow: u128) -> Option<WorkflowStatus> {
    if has_workflow(flows, flow) && flows[workflow_index(flows, flow)].status == WorkflowStatus::Running {
        workflow_outcome_spec(nodes, flow)
    } else {
        None
    }
}

/// Some child of `id` is still Standby or Running: `id` may not end yet.
pub open spec fn children_pending(nodes: Seq<NodeView>, id: u128) -> bool {
    !all_terminal(children_of(nodes, id))
}

/// Handling one status event, as a transition of the whole state. A node
/// ends only once every one of its batch children has ended; until then a
/// terminal event for it is refused.
pub open spec fn receive_spec(s: EngineView, ev: EventView) -> (EngineView, ReceiveOutcome) {
    if !has_node(s.nodes, ev.node_id) {
        (s, ignored(Disposition::NotFound))
    } else {
        let i = node_index(s.nodes, ev.node_id);
        let n = s.nodes[i];
        if is_terminal(n.status) && n.status == ev.status {
            (s, ignored(Disposition::Duplicate))
        } else if !legal_transition(n.status, ev.status) || (is_terminal(ev.status)
            && children_pending(s.nodes, n.id)) {
            (s, ignored(Disposition::InvalidTransition))
        } else {
            let terminal = is_terminal(ev.status);
            let nodes1 = s.nodes.update(i, node_after(n, ev));
            let leases1 = if terminal { released(s.leases, n.id) } else { s.leases };
            let parent_status = if terminal { resolved_parent(nodes1, n.batch_parent_id) } else { None };
            let nodes2 = match parent_status {
                Some(ps) => {
                    let pi = node_index(nodes1, n.batch_parent_id->0);
                    nodes1.update(pi, NodeView { status: ps, ..nodes1[pi] })
                },
                None => nodes1,
            };
            let leases2 = if parent_status is Some {
                released(leases1, n.batch_parent_id->0)
            } else {
                leases1
            };
            let workflow_status = settled_workflow(s.workflows, nodes2, n.flow_instance_id);
            let workflows2 = match workflow_status {
                Some(ws) => s.workflows.update(
                    workflow_index(s.workflows, n.flow_instance_id),
                    WorkflowInstance { id: n.flow_instance_id, status: ws },
                ),
                None => s.workflows,
            };
            (
                EngineView { nodes: nodes2, workflows: workflows2, slots: s.slots, leases: leases2 },
                ReceiveOutcome {
                    disposition: Disposition::Applied,
                    billing: match ev.resource_meter {
                        Some(m) => Some(BillingRecord { node_id: n.id, resource_meter: m }),
                        None => None,
                    },
                    reschedule: Some(n.flow_instance_id),
                    lease_released: terminal && holds(s.leases, n.id),
                    parent_status,
                    workflow_status,
                },
            )
        }
    }
}

impl Orchestrator {
    /// Records that a claimed node could not be started: the node becomes
    /// Failed with the reason appended to its log, and its lease is given back.
    pub fn report_start_failure(&mut self, node_id: u128, failure: StartFailure, detail: &str) -> (r: ReceiveOutcome)
        requires
            old(self).wf(),
        ensures
            final(self).wf(),
            final(self)@ == receive_spec(old(self)@, failure_event(node_id, failure, detail@)).0,
            r == receive_spec(old(self)@, failure_event(node_id, failure, detail@)).1,
            final(self).selector == old(self).selector,
    {
        let mut text = match failure {
            StartFailure::Staging => "staging failed: ".to_owned(),
            StartFailure::Dispatch => "dispatch failed: ".to_owned(),
        };
        text.append(detail);
        let ev = StatusEvent {
            node_id,
            status: NodeStatus::Failed,
            resource_meter: None,
            log_append: Some(text),
        };
        assert(ev@ == failure_event(node_id, failure, detail@));
        self.receive(&ev)
    }

    /// Applies one status event: updates the node, resolves its parent's
    /// fan-in join, gives back leases of nodes that became terminal, and
    /// settles the workflow once it can make no more progress. A terminal
    /// status for a node whose batch children have not all ended is refused.
    pub fn receive(&mut self, ev: &StatusEvent) -> (r: ReceiveOutcome)
        requires
            old(self).wf(),
        ensures
            final(self).wf(),
            final(self)@ == receive_spec(old(self)@, ev@).0,
            r == receive_spec(old(self)@, ev@).1,
            final(self).selector == old(self).selector,
    {
        let ghost s = self@;
        let i = match self.store.find_node(ev.node_id) {
            Some(i) => i,
            None => {
                return ReceiveOutcome {
                    disposition: Disposition::NotFound,
                    billing: None,
                    reschedule: None,
                    lease_released: false,
                    parent_status: None,
                    workflow_status: None,
                };
            },
        };
        assert(i == node_index(s.nodes, ev.node_id));
        let n = self.store.node_at(i);
        let cur = n.status;
        if status_is_terminal(cur) && cur == ev.status {
            return ReceiveOutcome {
                disposition: Disposition::Duplicate,
                billing: None,
                reschedule: None,
                lease_released: false,
                parent_status: None,
                workflow_status: None,
            };
        }
        let refused = if !is_legal_transition(cur, ev.status) {
            true
        } else if status_is_terminal(ev.status) {
            let kids = self.store.get_node_sub_node_instances(ev.node_id);
            fan_in_join(&kids) == JoinOutcome::Pending
        } else {
            false
        };
        if refused {
            return ReceiveOutcome {
                disposition: Disposition::InvalidTransition,
                billing: None,
                reschedule: None,
                lease_released: false,
                parent_status: None,
                workflow_status: None,
            };
        }
        let meter = match ev.resource_meter {
            Some(m) => Some(m),
            None => n.resource_meter,
        };
        let mut log = n.log.clone();
        match &ev.log_append {
            Some(t) => {
                log.append(t.as_str());
            },
            None => {},
        }
        let flow = n.flow_instance_id;
        let parent = n.batch_parent_id;
        let queue = n.queue_id;
        let ghost nv = n@;
        self.store.write_dynamic(i, ev.status, queue, meter, log);
        assert(self@.nodes =~= s.nodes.update(i as int, node_after(nv, ev@)));
        let terminal = status_is_terminal(ev.status);
        let mut lease_released = false;
        if terminal {
            lease_released = self.queues.release(ev.node_id);
        }
        let mut parent_status: Option<NodeStatus> = None;
        if terminal {
            match parent {
                Some(p) => {
                    match self.store.find_node(p) {
                        Some(pi) => {
                            let ghost nodes1 = self@.nodes;
                            assert(pi == node_index(nodes1, p));
                            let pn = self.store.node_at(pi);
                            if !status_is_terminal(pn.status) {
                                let children = self.store.get_node_sub_node_instances(p);
                                let j = fan_in_join(&children);
                                let ps = match j {
                                    JoinOutcome::Pending => None,
                                    JoinOutcome::Completed => Some(NodeStatus::Completed),
                                    JoinOutcome::Failed => Some(NodeStatus::Failed),
                                };
                                match ps {
                                    Some(st) => {
                                        let pq = pn.queue_id;
                                        let pm = pn.resource_meter;
                                        let pl = pn.log.clone();
                                        self.store.write_dynamic(pi, st, pq, pm, pl);
                                        assert(self@.nodes =~= nodes1.update(
                                            pi as int,
                                            NodeView { status: st, ..nodes1[pi as int] },
                                        ));
                                        self.queues.release(p);
                                        parent_status = Some(st);
                                    },
                                    None => {},
                                }
                            }
                        },
                        None => {},
                    }
                },
                None => {},
            }
        }
        let mut workflow_status: Option<WorkflowStatus> = None;
        match self.store.find_workflow(flow) {
            Some(wi) => {
                assert(wi == workflow_index(s.workflows, flow));
                if self.store.workflow_at(wi).status == WorkflowStatus::Running {
                    match self.store.workflow_outcome(flow) {
                        Some(ws) => {
                            self.store.write_workflow_status(wi, ws);
                            workflow_status = Some(ws);
                        },
                        None => {},
                    }
                }
            },
            None => {},
        }
        let billing = match ev.resource_meter {
            Some(m) => Some(BillingRecord { node_id: ev.node_id, resource_meter: m }),
            None => None,
        };
        proof {
            assert(self@ == receive_spec(s, ev@).0);
            lemma_receive_keeps_leases_live(s, ev@);
            lemma_receive_keeps_parents_after_children(s, ev@);
        }
        ReceiveOutcome {
            disposition: Disposition::Applied,
            billing,
            reschedule: Some(flow),
            lease_released,
            parent_status,
            workflow_status,
        }
    }
}

/// Node identifiers sit where they sat before an event, so they stay unique.
pub(crate) proof fn lemma_receive_keeps_ids(s: EngineView, ev: EventView)
    requires
        ids_unique(s.nodes),
    ensures
        receive_spec(s, ev).0.nodes.len() == s.nodes.len(),
        forall|k: int| 0 <= k < s.nodes.len() ==> #[trigger] receive_spec(s, ev).0.nodes[k].id == s.nodes[k].id,
        forall|k: int| 0 <= k < s.nodes.len() ==> #[trigger] receive_spec(s, ev).0.nodes[k].batch_parent_id == s.nodes[k].batch_parent_id,
        ids_unique(receive_spec(s, ev).0.nodes),
{
    let s1 = receive_spec(s, ev).0;
    if has_node(s.nodes, ev.node_id) {
        let i = node_index(s.nodes, ev.node_id);
        let n = s.nodes[i];
        let nodes1 = s.nodes.update(i, node_after(n, ev));
        assert(forall|k: int| 0 <= k < s.nodes.len() ==> #[trigger] nodes1[k].id == s.nodes[k].id);
    }
    assert forall|a: int, b: int|
        0 <= a < s1.nodes.len() && 0 <= b < s1.nodes.len() && a != b implies #[trigger] s1.nodes[a].id
            != #[trigger] s1.nodes[b].id by {
        assert(s1.nodes[a].id == s.nodes[a].id);
        assert(s1.nodes[b].id == s.nodes[b].id);
    }
}

/// After an event the reported node is where it was, and if the event was
/// applied with a terminal status, the node is terminal.
proof fn lemma_applied_terminal_stays(s: EngineView, ev: EventView)
    requires
        ids_unique(s.nodes),
        is_terminal(ev.status),
        receive_spec(s, ev).1.disposition == Disposition::Applied,
    ensures
        has_node(receive_spec(s, ev).0.nodes, ev.node_id),
        is_terminal(receive_spec(s, ev).0.nodes[node_index(receive_spec(s, ev).0.nodes, ev.node_id)].status),
{
    lemma_receive_keeps_ids(s, ev);
    let s1 = receive_spec(s, ev).0;
    let i = node_index(s.nodes, ev.node_id);
    assert(s1.nodes[i].id == ev.node_id);
    assert(has_node(s1.nodes, ev.node_id));
    let k = node_index(s1.nodes, ev.node_id);
    assert(k == i);
}

/// A terminal status event handled a second time changes nothing: the state
/// is the one the first handling left, no lease is released again, nothing is
/// billed again and no scheduling pass is asked for.
pub proof fn lemma_terminal_event_idempotent(s: EngineView, ev: EventView)
    requires
        ids_unique(s.nodes),
        is_terminal(ev.status),
    ensures
        ({
            let (s1, o1) = receive_spec(s, ev);
            let (s2, o2) = receive_spec(s1, ev);
            &&& s2 == s1
            &&& o2.disposition != Disposition::Applied
            &&& !o2.lease_released
            &&& o2.billing is None
            &&& o2.reschedule is None
        }),
{
    if receive_spec(s, ev).1.disposition == Disposition::Applied {
        lemma_applied_terminal_stays(s, ev);
    }
}

/// A node that an event makes terminal holds no queue lease afterwards, and
/// the event reports a release exactly when the node held one (a node never
/// dispatched releases nothing). A batch parent settled by the event gives
/// back its lease as well. Handling the event again releases nothing, so
/// each lease is released once.
pub proof fn lemma_lease_released_exactly_once(s: EngineView, ev: EventView)
    requires
        ids_unique(s.nodes),
        crate::queue::lease_nodes_unique(s.leases),
        is_terminal(ev.status),
    ensures
        ({
            let (s1, o1) = receive_spec(s, ev);
            let (s2, o2) = receive_spec(s1, ev);
            &&& o1.disposition == Disposition::Applied ==> {
                &&& !holds(s1.leases, ev.node_id)
                &&& o1.lease_released == holds(s.leases, ev.node_id)
                &&& o1.parent_status is Some ==> !holds(
                    s1.leases,
                    s.nodes[node_index(s.nodes, ev.node_id)].batch_parent_id->0,
                )
            }
            &&& !o2.lease_released
            &&& s2.leases == s1.leases
        }),
{
    lemma_terminal_event_idempotent(s, ev);
    let (s1, o1) = receive_spec(s, ev);
    if o1.disposition == Disposition::Applied {
        let n = s.nodes[node_index(s.nodes, ev.node_id)];
        assert(n.id == ev.node_id);
        lemma_release_twice(s.leases, n.id);
        let l1 = released(s.leases, n.id);
        lemma_released_facts(s.leases, n.id);
        if o1.parent_status is Some {
            let p = n.batch_parent_id->0;
            lemma_released_facts(l1, p);
            if holds(released(l1, p), n.id) {
                let k = choose|k: int| 0 <= k < released(l1, p).len() && #[trigger] released(l1, p)[k].node_id == n.id;
                assert(l1.contains(released(l1, p)[k]));
            }
        }
    }
}

/// A failed start of a node that is not yet terminal, and whose batch
/// children (if any) have all ended, leaves it Failed, with a
/// non-empty log and no queue lease; every other node, but its batch parent,
/// is as it was.
pub proof fn lemma_start_failure_contained(s: EngineView, node_id: u128, f: StartFailure, detail: Seq<char>)
    requires
        ids_unique(s.nodes),
        crate::queue::lease_nodes_unique(s.leases),
        has_node(s.nodes, node_id),
        !is_terminal(s.nodes[node_index(s.nodes, node_id)].status),
        !children_pending(s.nodes, node_id),
    ensures
        ({
            let (s1, o) = receive_spec(s, failure_event(node_id, f, detail));
            let i = node_index(s.nodes, node_id);
            &&& o.disposition == Disposition::Applied
            &&& s1.nodes[i].status == NodeStatus::Failed
            &&& s1.nodes[i].log.len() > 0
            &&& !holds(s1.leases, node_id)
            &&& forall|k: int|
                0 <= k < s.nodes.len() && k != i && Some(s.nodes[k].id) != s.nodes[i].batch_parent_id
                    ==> #[trigger] s1.nodes[k] == s.nodes[k]
        }),
{
    let ev = failure_event(node_id, f, detail);
    let i = node_index(s.nodes, node_id);
    let n = s.nodes[i];
    assert(failure_prefix(f).len() > 0) by {
        reveal_strlit("staging failed: ");
        reveal_strlit("dispatch failed: ");
    }
    assert(log_after(n.log, ev).len() > 0);
    lemma_lease_released_exactly_once(s, ev);
    let nodes1 = s.nodes.update(i, node_after(n, ev));
    match n.batch_parent_id {
        Some(p) => {
            if resolved_parent(nodes1, n.batch_parent_id) is Some {
                let pi = node_index(nodes1, p);
                assert(nodes1[pi].id == p);
                if pi == i {
                    assert(is_terminal(nodes1[i].status));
                }
                assert(pi != i);
                assert(s.nodes[pi].id == p);
            }
        },
        None => {},
    }
}

/// A terminal event for a node that is not terminal yet, in a state where a
/// non-terminal sibling remains, updates that node alone.
proof fn lemma_first_child_event(s: EngineView, e: EventView, other: int, p: u128)
    requires
        ids_unique(s.nodes),
        has_node(s.nodes, e.node_id),
        is_terminal(e.status),
        !is_terminal(s.nodes[node_index(s.nodes, e.node_id)].status),
        !children_pending(s.nodes, e.node_id),
        s.nodes[node_index(s.nodes, e.node_id)].batch_parent_id == Some(p),
        0 <= other < s.nodes.len(),
        other != node_index(s.nodes, e.node_id),
        s.nodes[other].batch_parent_id == Some(p),
        !is_terminal(s.nodes[other].status),
    ensures
        receive_spec(s, e).0.nodes == s.nodes.update(
            node_index(s.nodes, e.node_id),
            node_after(s.nodes[node_index(s.nodes, e.node_id)], e),
        ),
{
    broadcast use vstd::seq_lib::group_filter_ensures;
    let i = node_index(s.nodes, e.node_id);
    let nodes1 = s.nodes.update(i, node_after(s.nodes[i], e));
    assert(nodes1[other] == s.nodes[other]);
    let kids = children_of(nodes1, p);
    assert(NodeFilter::ChildrenOf(p).selects(nodes1[other]));
    assert(kids.contains(nodes1[other]));
    let k = choose|k: int| 0 <= k < kids.len() && kids[k] == nodes1[other];
    assert(!is_terminal(kids[k].status));
    assert(!all_terminal(kids));
    assert(resolved_parent(nodes1, Some(p)) is None);
}

/// Ending one node, or rewriting a node that is no child of `q`, keeps the
/// children of `q` all ended if they were.
proof fn lemma_children_stay_terminal(nodes: Seq<NodeView>, i: int, v: NodeView, q: u128)
    requires
        ids_unique(nodes),
        0 <= i < nodes.len(),
        v.id == nodes[i].id,
        v.batch_parent_id == nodes[i].batch_parent_id,
        is_terminal(v.status) || v.batch_parent_id != Some(q),
        !children_pending(nodes, q),
    ensures
        !children_pending(nodes.update(i, v), q),
{
    broadcast use vstd::seq_lib::group_filter_ensures;
    let after = nodes.update(i, v);
    assert(ids_unique(after)) by {
        assert forall|x: int, y: int| 0 <= x < after.len() && 0 <= y < after.len() && x != y implies #[trigger] after[x].id != #[trigger] after[y].id by {
            assert(after[x].id == nodes[x].id);
            assert(after[y].id == nodes[y].id);
        }
    }
    lemma_filter_unique(after, NodeFilter::ChildrenOf(q));
    let ka = children_of(after, q);
    let k0 = children_of(nodes, q);
    assert forall|k: int| 0 <= k < ka.len() implies is_terminal(#[trigger] ka[k].status) by {
        assert(after.contains(ka[k]));
        assert(NodeFilter::ChildrenOf(q).selects(ka[k]));
        let j = choose|j: int| 0 <= j < after.len() && after[j] == ka[k];
        if j != i {
            assert(after[j] == nodes[j]);
            assert(NodeFilter::ChildrenOf(q).selects(nodes[j]));
            assert(k0.contains(nodes[j]));
            let m = choose|m: int| 0 <= m < k0.len() && k0[m] == nodes[j];
            assert(is_terminal(k0[m].status));
        }
    }
}

/// Two children of one batch parent reporting terminal statuses leave the
/// same nodes whichever report arrives first: the join is recomputed from the
/// children's states, not from the order of the events.
pub proof fn lemma_child_events_commute(s: EngineView, e1: EventView, e2: EventView, p: u128)
    requires
        ids_unique(s.nodes),
        has_node(s.nodes, e1.node_id),
        has_node(s.nodes, e2.node_id),
        e1.node_id != e2.node_id,
        is_terminal(e1.status),
        is_terminal(e2.status),
        !is_terminal(s.nodes[node_index(s.nodes, e1.node_id)].status),
        !is_terminal(s.nodes[node_index(s.nodes, e2.node_id)].status),
        !children_pending(s.nodes, e1.node_id),
        !children_pending(s.nodes, e2.node_id),
        s.nodes[node_index(s.nodes, e1.node_id)].batch_parent_id == Some(p),
        s.nodes[node_index(s.nodes, e2.node_id)].batch_parent_id == Some(p),
    ensures
        receive_spec(receive_spec(s, e1).0, e2).0.nodes == receive_spec(receive_spec(s, e2).0, e1).0.nodes,
{
    let i1 = node_index(s.nodes, e1.node_id);
    let i2 = node_index(s.nodes, e2.node_id);
    assert(i1 != i2);
    let a = node_after(s.nodes[i1], e1);
    let b = node_after(s.nodes[i2], e2);
    lemma_first_child_event(s, e1, i2, p);
    lemma_first_child_event(s, e2, i1, p);
    let s1 = receive_spec(s, e1).0;
    let s2 = receive_spec(s, e2).0;
    lemma_receive_keeps_ids(s, e1);
    lemma_receive_keeps_ids(s, e2);
    // the second event finds its node where it was, untouched by the first
    assert(s1.nodes[i2].id == e2.node_id);
    assert(node_index(s1.nodes, e2.node_id) == i2);
    assert(s2.nodes[i1].id == e1.node_id);
    assert(node_index(s2.nodes, e1.node_id) == i1);
    assert(s1.nodes[i2] == s.nodes[i2]);
    assert(s2.nodes[i1] == s.nodes[i1]);
    lemma_children_stay_terminal(s.nodes, i1, a, e2.node_id);
    lemma_children_stay_terminal(s.nodes, i2, b, e1.node_id);
    let both = s.nodes.update(i1, a).update(i2, b);
    assert(s1.nodes.update(i2, b) =~= both);
    assert(s2.nodes.update(i1, a) =~= both);
}

/// A lease outlives no node: whatever event is handled, every lease left is
/// held by a stored node that has not ended.
pub proof fn lemma_receive_keeps_leases_live(s: EngineView, ev: EventView)
    requires
        ids_unique(s.nodes),
        crate::queue::lease_nodes_unique(s.leases),
        leases_live(s.nodes, s.leases),
    ensures
        leases_live(receive_spec(s, ev).0.nodes, receive_spec(s, ev).0.leases),
{
    let (s1, o) = receive_spec(s, ev);
    if o.disposition == Disposition::Applied {
        lemma_receive_keeps_ids(s, ev);
        let i = node_index(s.nodes, ev.node_id);
        let n = s.nodes[i];
        let terminal = is_terminal(ev.status);
        let leases1 = if terminal { released(s.leases, n.id) } else { s.leases };
        let nodes1 = s.nodes.update(i, node_after(n, ev));
        lemma_released_facts(s.leases, n.id);
        lemma_released_facts(leases1, n.batch_parent_id->0);
        assert forall|k: int| 0 <= k < s1.leases.len() implies has_node(s1.nodes, #[trigger] s1.leases[k].node_id)
            && !is_terminal(s1.nodes[node_index(s1.nodes, s1.leases[k].node_id)].status) by {
            let l = s1.leases[k];
            // every lease left was there before
            assert(s.leases.contains(l)) by {
                if o.parent_status is Some {
                    assert(leases1.contains(l));
                    if terminal {
                        let m = choose|m: int| 0 <= m < leases1.len() && leases1[m] == l;
                        assert(s.leases.contains(leases1[m]));
                    }
                } else if terminal {
                    assert(s.leases.contains(l));
                } else {
                    assert(s.leases[k] == l);
                }
            }
            let m = choose|m: int| 0 <= m < s.leases.len() && s.leases[m] == l;
            assert(has_node(s.nodes, s.leases[m].node_id));
            let j = node_index(s.nodes, l.node_id);
            assert(s.nodes[j].id == l.node_id);
            assert(s1.nodes[j].id == l.node_id);
            assert(has_node(s1.nodes, l.node_id));
            assert(node_index(s1.nodes, l.node_id) == j);
            if terminal {
                assert(l.node_id != n.id) by {
                    if l.node_id == n.id {
                        if o.parent_status is Some {
                            assert(leases1.contains(l));
                            let q = choose|q: int| 0 <= q < leases1.len() && leases1[q] == l;
                            assert(holds(leases1, n.id));
                        } else {
                            assert(s1.leases[k].node_id == n.id);
                            assert(holds(leases1, n.id));
                        }
                    }
                }
            }
            if o.parent_status is Some {
                assert(l.node_id != n.batch_parent_id->0) by {
                    if l.node_id == n.batch_parent_id->0 {
                        assert(holds(released(leases1, n.batch_parent_id->0), n.batch_parent_id->0));
                    }
                }
            }
        }
    }
}

/// Every terminal node has only terminal batch children.
pub open spec fn parents_after_children(nodes: Seq<NodeView>) -> bool {
    forall|x: int| 0 <= x < nodes.len() && is_terminal(#[trigger] nodes[x].status) ==> !children_pending(nodes, nodes[x].id)
}

proof fn lemma_update_keeps_ids_unique(nodes: Seq<NodeView>, i: int, v: NodeView)
    requires
        ids_unique(nodes),
        0 <= i < nodes.len(),
        v.id == nodes[i].id,
    ensures
        ids_unique(nodes.update(i, v)),
{
    let after = nodes.update(i, v);
    assert forall|x: int, y: int| 0 <= x < after.len() && 0 <= y < after.len() && x != y implies #[trigger] after[x].id != #[trigger] after[y].id by {
        assert(after[x].id == nodes[x].id);
        assert(after[y].id == nodes[y].id);
    }
}

/// Terminal nodes keep only terminal children when a node is rewritten in
/// place, as long as the new value is terminal or the old one was no child of
/// a terminal node.
pub proof fn lemma_update_keeps_parents_after_children(nodes: Seq<NodeView>, i: int, v: NodeView)
    requires
        ids_unique(nodes),
        parents_after_children(nodes),
        0 <= i < nodes.len(),
        v.id == nodes[i].id,
        v.batch_parent_id == nodes[i].batch_parent_id,
        is_terminal(v.status) ==> !children_pending(nodes, v.id),
        !is_terminal(v.status) ==> !is_terminal(nodes[i].status),
    ensures
        parents_after_children(nodes.update(i, v)),
{
    broadcast use vstd::seq_lib::group_filter_ensures;
    let after = nodes.update(i, v);
    assert forall|x: int| 0 <= x < after.len() && is_terminal(#[trigger] after[x].status) implies !children_pending(after, after[x].id) by {
        let q = after[x].id;
        assert(q == nodes[x].id);
        if x == i {
            lemma_children_stay_terminal(nodes, i, v, q);
        } else {
            assert(after[x] == nodes[x]);
            if !is_terminal(v.status) && v.batch_parent_id == Some(q) {
                assert(NodeFilter::ChildrenOf(q).selects(nodes[i]));
                assert(children_of(nodes, q).contains(nodes[i]));
                let m = choose|m: int| 0 <= m < children_of(nodes, q).len() && children_of(nodes, q)[m] == nodes[i];
                assert(is_terminal(children_of(nodes, q)[m].status));
            }
            lemma_children_stay_terminal(nodes, i, v, q);
        }
    }
}

/// A batch parent ends only after all its children: handling any event keeps
/// every terminal node's batch children terminal.
pub proof fn lemma_receive_keeps_parents_after_children(s: EngineView, ev: EventView)
    requires
        ids_unique(s.nodes),
        parents_after_children(s.nodes),
    ensures
        parents_after_children(receive_spec(s, ev).0.nodes),
{
    let (s1, o) = receive_spec(s, ev);
    if o.disposition == Disposition::Applied {
        let i = node_index(s.nodes, ev.node_id);
        let n = s.nodes[i];
        let v = node_after(n, ev);
        let nodes1 = s.nodes.update(i, v);
        lemma_update_keeps_parents_after_children(s.nodes, i, v);
        lemma_update_keeps_ids_unique(s.nodes, i, v);
        if o.parent_status is Some {
            let p = n.batch_parent_id->0;
            let pi = node_index(nodes1, p);
            let pv = NodeView { status: o.parent_status->0, ..nodes1[pi] };
            assert(nodes1[pi].id == p);
            lemma_update_keeps_parents_after_children(nodes1, pi, pv);
        }
    }
}

pub open spec fn completion_event(id: u128) -> EventView {
    EventView { node_id: id, status: NodeStatus::Completed, resource_meter: None, log_append: None }
}

/// A Completed event for a running or completed node that has no batch
/// children leaves it Completed, and changes the status of no other node
/// that has no batch children.
pub(crate) proof fn lemma_completion_step(s: EngineView, x: u128)
    requires
        ids_unique(s.nodes),
        has_node(s.nodes, x),
        s.nodes[node_index(s.nodes, x)].status == NodeStatus::Running || s.nodes[node_index(s.nodes, x)].status
            == NodeStatus::Completed,
        children_of(s.nodes, x).len() == 0,
    ensures
        receive_spec(s, completion_event(x)).0.nodes[node_index(s.nodes, x)].status == NodeStatus::Completed,
        forall|k: int|
            0 <= k < s.nodes.len() && k != node_index(s.nodes, x) && children_of(s.nodes, s.nodes[k].id).len() == 0
                ==> #[trigger] receive_spec(s, completion_event(x)).0.nodes[k].status == s.nodes[k].status,
{
    broadcast use vstd::seq_lib::group_filter_ensures;
    let ev = completion_event(x);
    let i = node_index(s.nodes, x);
    let n = s.nodes[i];
    if n.status == NodeStatus::Running {
        assert(all_terminal(children_of(s.nodes, x)));
        let nodes1 = s.nodes.update(i, node_after(n, ev));
        match n.batch_parent_id {
            Some(p) => {
                assert(NodeFilter::ChildrenOf(p).selects(s.nodes[i]));
                assert(children_of(s.nodes, p).contains(s.nodes[i]));
                if resolved_parent(nodes1, n.batch_parent_id) is Some {
                    let pi = node_index(nodes1, p);
                    assert(nodes1[pi].id == p);
                    if pi == i {
                        assert(children_of(s.nodes, x).contains(s.nodes[i]));
                    }
                    assert forall|k: int|
                        0 <= k < s.nodes.len() && k != i && children_of(s.nodes, s.nodes[k].id).len() == 0
                            implies #[trigger] receive_spec(s, ev).0.nodes[k].status == s.nodes[k].status by {
                        if k == pi {
                            assert(s.nodes[k].id == p);
                        }
                    }
                }
            },
            None => {},
        }
    }
}

} // verus!
