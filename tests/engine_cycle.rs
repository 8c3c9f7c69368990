use workflow_engine::engine::Orchestrator;
use workflow_engine::model::{NodeInstance, NodeKind, NodeStatus, ResourceMeter, WorkflowStatus};
use workflow_engine::queue::{LeaseError, QueueManager};
use workflow_engine::receiver::{BillingRecord, Disposition, StartFailure, StatusEvent};
use workflow_engine::store::{Batch, NodeStore, StoreError};
use workflow_engine::usecase::{StartOutcome, Task, Usecase, UsecaseSelector};

const SCRIPT_QUEUE: u128 = 100;
const COMPUTE_QUEUE: u128 = 200;

fn node(id: u128, flow: u128, kind: NodeKind, is_parent: bool, parent: Option<u128>) -> NodeInstance {
    NodeInstance::new(id, format!("node-{id}"), flow, kind, is_parent, parent)
}

fn engine(nodes: Vec<NodeInstance>, script_cap: u64, compute_cap: u64) -> Orchestrator {
    let mut store = NodeStore::new();
    store.insert_workflow(1).unwrap();
    let mut batch = Batch::new();
    for n in nodes {
        batch.insert(n);
    }
    store.commit(batch).unwrap();
    let mut queues = QueueManager::new();
    assert!(queues.add_queue(SCRIPT_QUEUE, script_cap));
    assert!(queues.add_queue(COMPUTE_QUEUE, compute_cap));
    Orchestrator::new(store, queues, UsecaseSelector::new(SCRIPT_QUEUE, COMPUTE_QUEUE))
}

fn event(id: u128, status: NodeStatus) -> StatusEvent {
    StatusEvent { node_id: id, status, resource_meter: None, log_append: None }
}

fn status_of(o: &Orchestrator, id: u128) -> NodeStatus {
    o.store.get_by_id(id).unwrap().status
}

#[test]
fn queue_leases_respect_capacity() {
    let mut q = QueueManager::new();
    assert!(q.add_queue(1, 2));
    assert!(!q.add_queue(1, 5));
    assert_eq!(q.acquire(1, 10), Ok(()));
    assert_eq!(q.acquire(1, 10), Err(LeaseError::AlreadyHeld));
    assert_eq!(q.acquire(1, 11), Ok(()));
    assert_eq!(q.acquire(1, 12), Err(LeaseError::Busy));
    assert_eq!(q.acquire(2, 12), Err(LeaseError::UnknownQueue));
    assert_eq!(q.count_in_use(1), 2);
    assert_eq!(q.lease_of(11), Some(1));
    assert!(q.release(10));
    assert!(!q.release(10));
    assert_eq!(q.lease_of(10), None);
    assert_eq!(q.acquire(1, 12), Ok(()));
}

#[test]
fn release_of_a_never_leased_node_is_a_no_op() {
    let mut q = QueueManager::new();
    assert!(q.add_queue(1, 1));
    assert!(!q.release(42));
    assert_eq!(q.count_in_use(1), 0);
}

#[test]
fn selector_maps_each_kind_to_its_strategy() {
    let sel = UsecaseSelector::new(7, 8);
    assert_eq!(sel.select(NodeKind::NoAction), Usecase::NoAction);
    assert_eq!(sel.select(NodeKind::Script), Usecase::Script { queue_id: 7 });
    assert_eq!(sel.select(NodeKind::SoftwareComputing), Usecase::SoftwareComputing { queue_id: 8 });
    let n = node(5, 1, NodeKind::Script, false, None);
    assert_eq!(sel.select(NodeKind::NoAction).start(&n, None), StartOutcome::ImmediatelyCompleted);
    assert_eq!(
        sel.select(NodeKind::Script).start(&n, Some(3)),
        StartOutcome::DispatchRequest(Task { node_id: 5, queue_id: 7, kind: NodeKind::Script, shard: Some(3) })
    );
}

#[test]
fn schedule_claims_ready_nodes_by_kind() {
    let mut o = engine(
        vec![
            node(1, 1, NodeKind::NoAction, false, None),
            node(2, 1, NodeKind::Script, false, None),
            node(3, 1, NodeKind::SoftwareComputing, false, None),
        ],
        1,
        1,
    );
    let plan = o.schedule(1);
    assert_eq!(plan.completions, vec![1]);
    assert_eq!(
        plan.tasks,
        vec![
            Task { node_id: 2, queue_id: SCRIPT_QUEUE, kind: NodeKind::Script, shard: None },
            Task { node_id: 3, queue_id: COMPUTE_QUEUE, kind: NodeKind::SoftwareComputing, shard: None },
        ]
    );
    assert!(!plan.rerun);
    assert_eq!(status_of(&o, 1), NodeStatus::Completed);
    assert_eq!(o.store.get_by_id(2).unwrap().queue_id, Some(SCRIPT_QUEUE));
    assert_eq!(o.queues.lease_of(3), Some(COMPUTE_QUEUE));
    assert_eq!(o.queues.lease_of(1), None);
}

#[test]
fn busy_queue_leaves_node_standby_until_a_later_pass() {
    let mut o = engine(
        vec![node(1, 1, NodeKind::Script, false, None), node(2, 1, NodeKind::Script, false, None)],
        1,
        1,
    );
    let plan = o.schedule(1);
    assert_eq!(plan.tasks.len(), 1);
    assert_eq!(status_of(&o, 1), NodeStatus::Running);
    assert_eq!(status_of(&o, 2), NodeStatus::Standby);
    // node 2 waits while the entry node 1 is still running
    let again = o.schedule(1);
    assert!(again.tasks.is_empty());
    let out = o.receive(&event(1, NodeStatus::Completed));
    assert_eq!(out.reschedule, Some(1));
    assert!(out.lease_released);
    let third = o.schedule(1);
    assert_eq!(third.tasks, vec![Task { node_id: 2, queue_id: SCRIPT_QUEUE, kind: NodeKind::Script, shard: None }]);
    assert_eq!(status_of(&o, 2), NodeStatus::Running);
}

#[test]
fn fan_out_parent_completes_after_last_child_event() {
    let mut o = engine(
        vec![
            node(10, 1, NodeKind::SoftwareComputing, true, None),
            node(11, 1, NodeKind::Script, false, Some(10)),
            node(12, 1, NodeKind::Script, false, Some(10)),
            node(13, 1, NodeKind::Script, false, Some(10)),
        ],
        3,
        1,
    );
    let first = o.schedule(1);
    assert!(first.rerun);
    assert!(first.tasks.is_empty());
    assert_eq!(status_of(&o, 10), NodeStatus::Running);
    assert_eq!(o.queues.lease_of(10), None);
    let second = o.schedule(1);
    let shards: Vec<(u128, Option<usize>)> = second.tasks.iter().map(|t| (t.node_id, t.shard)).collect();
    assert_eq!(shards, vec![(11, Some(0)), (12, Some(1)), (13, Some(2))]);

    let c2 = o.receive(&event(12, NodeStatus::Completed));
    assert_eq!(c2.disposition, Disposition::Applied);
    assert_eq!(c2.parent_status, None);
    assert_eq!(status_of(&o, 10), NodeStatus::Running);
    let c1 = o.receive(&event(11, NodeStatus::Completed));
    assert_eq!(c1.parent_status, None);
    assert_eq!(status_of(&o, 10), NodeStatus::Running);
    let c3 = o.receive(&event(13, NodeStatus::Completed));
    assert_eq!(c3.parent_status, Some(NodeStatus::Completed));
    assert_eq!(status_of(&o, 10), NodeStatus::Completed);
    assert_eq!(c3.workflow_status, Some(WorkflowStatus::Completed));
    assert_eq!(o.store.get_workflow(1).unwrap().status, WorkflowStatus::Completed);
    assert_eq!(o.queues.count_in_use(SCRIPT_QUEUE), 0);
}

#[test]
fn failed_child_fails_parent_once_all_children_are_terminal() {
    let mut o = engine(
        vec![
            node(10, 1, NodeKind::NoAction, true, None),
            node(11, 1, NodeKind::Script, false, Some(10)),
            node(12, 1, NodeKind::Script, false, Some(10)),
        ],
        2,
        1,
    );
    o.schedule(1);
    o.schedule(1);
    let f = o.receive(&event(11, NodeStatus::Failed));
    assert_eq!(f.parent_status, None);
    assert_eq!(status_of(&o, 10), NodeStatus::Running);
    let c = o.receive(&event(12, NodeStatus::Completed));
    assert_eq!(c.parent_status, Some(NodeStatus::Failed));
    assert_eq!(status_of(&o, 10), NodeStatus::Failed);
    assert_eq!(c.workflow_status, Some(WorkflowStatus::Failed));
}

#[test]
fn join_result_does_not_depend_on_event_order() {
    let build = || {
        let mut o = engine(
            vec![
                node(10, 1, NodeKind::NoAction, true, None),
                node(11, 1, NodeKind::Script, false, Some(10)),
                node(12, 1, NodeKind::Script, false, Some(10)),
            ],
            2,
            1,
        );
        o.schedule(1);
        o.schedule(1);
        o
    };
    let mut a = build();
    a.receive(&event(11, NodeStatus::Failed));
    a.receive(&event(12, NodeStatus::Completed));
    let mut b = build();
    b.receive(&event(12, NodeStatus::Completed));
    b.receive(&event(11, NodeStatus::Failed));
    assert_eq!(status_of(&a, 10), NodeStatus::Failed);
    assert_eq!(status_of(&b, 10), NodeStatus::Failed);
}

#[test]
fn duplicate_completion_changes_nothing() {
    let mut o = engine(vec![node(1, 1, NodeKind::Script, false, None), node(2, 1, NodeKind::Script, false, None)], 2, 1);
    o.schedule(1);
    let meter = ResourceMeter { cpu_seconds: 12, memory_bytes: 1024, wall_seconds: 30 };
    let done = StatusEvent {
        node_id: 1,
        status: NodeStatus::Completed,
        resource_meter: Some(meter),
        log_append: Some("exit 0".to_string()),
    };
    let first = o.receive(&done);
    assert_eq!(first.disposition, Disposition::Applied);
    assert_eq!(first.billing, Some(BillingRecord { node_id: 1, resource_meter: meter }));
    assert!(first.lease_released);
    let after_first = o.store.get_by_id(1).unwrap();
    assert_eq!(after_first.log, "exit 0");
    let second = o.receive(&done);
    assert_eq!(second.disposition, Disposition::Duplicate);
    assert_eq!(second.billing, None);
    assert!(!second.lease_released);
    assert_eq!(second.reschedule, None);
    let after_second = o.store.get_by_id(1).unwrap();
    assert_eq!(after_second.log, after_first.log);
    assert_eq!(after_second.status, NodeStatus::Completed);
    assert_eq!(after_second.resource_meter, Some(meter));
    assert_eq!(o.queues.lease_of(2), Some(SCRIPT_QUEUE));
}

#[test]
fn lease_released_once_even_for_undispatched_node() {
    let mut o = engine(vec![node(1, 1, NodeKind::Script, false, None)], 1, 1);
    // cancelled before it was ever dispatched
    let out = o.receive(&event(1, NodeStatus::Failed));
    assert_eq!(out.disposition, Disposition::Applied);
    assert!(!out.lease_released);
    assert_eq!(o.queues.count_in_use(SCRIPT_QUEUE), 0);
    let again = o.receive(&event(1, NodeStatus::Failed));
    assert_eq!(again.disposition, Disposition::Duplicate);
    assert!(!again.lease_released);
}

#[test]
fn illegal_transitions_are_rejected() {
    let mut o = engine(vec![node(1, 1, NodeKind::Script, false, None)], 1, 1);
    o.schedule(1);
    o.receive(&event(1, NodeStatus::Completed));
    let back = o.receive(&event(1, NodeStatus::Standby));
    assert_eq!(back.disposition, Disposition::InvalidTransition);
    let other = o.receive(&event(1, NodeStatus::Failed));
    assert_eq!(other.disposition, Disposition::InvalidTransition);
    assert_eq!(status_of(&o, 1), NodeStatus::Completed);
    let missing = o.receive(&event(99, NodeStatus::Completed));
    assert_eq!(missing.disposition, Disposition::NotFound);
}

#[test]
fn progress_event_appends_log_and_keeps_lease() {
    let mut o = engine(vec![node(1, 1, NodeKind::Script, false, None)], 1, 1);
    o.schedule(1);
    let ev = StatusEvent { node_id: 1, status: NodeStatus::Running, resource_meter: None, log_append: Some("50%".to_string()) };
    let out = o.receive(&ev);
    assert_eq!(out.disposition, Disposition::Applied);
    assert!(!out.lease_released);
    o.receive(&ev);
    assert_eq!(o.store.get_by_id(1).unwrap().log, "50%50%");
    assert_eq!(o.queues.lease_of(1), Some(SCRIPT_QUEUE));
}

#[test]
fn staging_failure_fails_only_that_node() {
    let mut o = engine(vec![node(1, 1, NodeKind::Script, false, None), node(2, 1, NodeKind::Script, false, None)], 2, 1);
    let plan = o.schedule(1);
    assert_eq!(plan.tasks.len(), 2);
    let out = o.report_start_failure(1, StartFailure::Staging, "input missing");
    assert_eq!(out.disposition, Disposition::Applied);
    assert!(out.lease_released);
    let failed = o.store.get_by_id(1).unwrap();
    assert_eq!(failed.status, NodeStatus::Failed);
    assert_eq!(failed.log, "staging failed: input missing");
    assert_eq!(o.queues.lease_of(1), None);
    assert_eq!(status_of(&o, 2), NodeStatus::Running);
    assert_eq!(o.queues.lease_of(2), Some(SCRIPT_QUEUE));
}

#[test]
fn dispatch_failure_is_logged_even_without_detail() {
    let mut o = engine(vec![node(1, 1, NodeKind::SoftwareComputing, false, None)], 1, 1);
    o.schedule(1);
    o.report_start_failure(1, StartFailure::Dispatch, "");
    let failed = o.store.get_by_id(1).unwrap();
    assert_eq!(failed.status, NodeStatus::Failed);
    assert_eq!(failed.log, "dispatch failed: ");
    assert_eq!(o.queues.count_in_use(COMPUTE_QUEUE), 0);
}

#[test]
fn no_action_completion_settles_workflow() {
    let mut o = engine(vec![node(1, 1, NodeKind::NoAction, false, None)], 1, 1);
    let plan = o.schedule(1);
    assert_eq!(plan.completions, vec![1]);
    // the pass completes the no-op node itself
    assert_eq!(status_of(&o, 1), NodeStatus::Completed);
    assert_eq!(o.store.get_workflow(1).unwrap().status, WorkflowStatus::Completed);
    assert_eq!(o.queues.lease_of(1), None);
    let again = o.receive(&event(1, NodeStatus::Completed));
    assert_eq!(again.disposition, Disposition::Duplicate);
}

#[test]
fn no_action_child_completion_resolves_parent_join() {
    let mut o = engine(
        vec![
            node(10, 1, NodeKind::Script, true, None),
            node(11, 1, NodeKind::NoAction, false, Some(10)),
            node(12, 1, NodeKind::NoAction, false, Some(10)),
        ],
        1,
        1,
    );
    let first = o.schedule(1);
    assert!(first.rerun);
    let second = o.schedule(1);
    assert_eq!(second.completions, vec![11, 12]);
    assert_eq!(status_of(&o, 11), NodeStatus::Completed);
    assert_eq!(status_of(&o, 12), NodeStatus::Completed);
    assert_eq!(status_of(&o, 10), NodeStatus::Completed);
    assert_eq!(o.store.get_workflow(1).unwrap().status, WorkflowStatus::Completed);
}

#[test]
fn parent_event_before_children_is_refused() {
    let mut o = engine(
        vec![
            node(10, 1, NodeKind::SoftwareComputing, true, None),
            node(11, 1, NodeKind::Script, false, Some(10)),
            node(12, 1, NodeKind::Script, false, Some(10)),
        ],
        2,
        1,
    );
    o.schedule(1);
    o.schedule(1);
    let early = o.receive(&event(10, NodeStatus::Completed));
    assert_eq!(early.disposition, Disposition::InvalidTransition);
    assert_eq!(status_of(&o, 10), NodeStatus::Running);
    o.receive(&event(11, NodeStatus::Failed));
    let early_again = o.receive(&event(10, NodeStatus::Completed));
    assert_eq!(early_again.disposition, Disposition::InvalidTransition);
    let last = o.receive(&event(12, NodeStatus::Completed));
    assert_eq!(last.parent_status, Some(NodeStatus::Failed));
    assert_eq!(status_of(&o, 10), NodeStatus::Failed);
    // a late report from the parent itself no longer changes it
    let late = o.receive(&event(10, NodeStatus::Completed));
    assert_eq!(late.disposition, Disposition::InvalidTransition);
    assert_eq!(status_of(&o, 10), NodeStatus::Failed);
}

#[test]
fn parent_progress_event_is_still_accepted() {
    let mut o = engine(
        vec![node(10, 1, NodeKind::SoftwareComputing, true, None), node(11, 1, NodeKind::Script, false, Some(10))],
        1,
        1,
    );
    o.schedule(1);
    let ev = StatusEvent { node_id: 10, status: NodeStatus::Running, resource_meter: None, log_append: Some("fanned out".to_string()) };
    assert_eq!(o.receive(&ev).disposition, Disposition::Applied);
    assert_eq!(o.store.get_by_id(10).unwrap().log, "fanned out");
}

#[test]
fn ended_workflow_takes_no_new_nodes() {
    let mut o = engine(vec![node(1, 1, NodeKind::Script, false, None)], 1, 1);
    o.schedule(1);
    let out = o.receive(&event(1, NodeStatus::Completed));
    assert_eq!(out.workflow_status, Some(WorkflowStatus::Completed));
    let mut batch = Batch::new();
    batch.insert(node(2, 1, NodeKind::Script, false, None));
    assert_eq!(o.store.commit(batch), Err(StoreError::WorkflowClosed));
}

#[test]
fn parent_without_children_completes_when_claimed() {
    let mut o = engine(vec![node(10, 1, NodeKind::Script, true, None)], 1, 1);
    let plan = o.schedule(1);
    assert_eq!(plan.completions, vec![10]);
    assert!(!plan.rerun);
    assert!(plan.tasks.is_empty());
    assert_eq!(status_of(&o, 10), NodeStatus::Completed);
    assert_eq!(o.store.get_workflow(1).unwrap().status, WorkflowStatus::Completed);
}

#[test]
fn failed_entry_with_nothing_running_settles_workflow() {
    let mut o = engine(vec![node(1, 1, NodeKind::Script, false, None), node(2, 1, NodeKind::Script, false, None)], 1, 1);
    let plan = o.schedule(1);
    assert_eq!(plan.tasks.len(), 1);
    assert_eq!(status_of(&o, 2), NodeStatus::Standby);
    let out = o.receive(&event(1, NodeStatus::Failed));
    // node 2 can never pass the entry gate now
    assert_eq!(out.workflow_status, Some(WorkflowStatus::Failed));
    assert_eq!(o.store.get_workflow(1).unwrap().status, WorkflowStatus::Failed);
    assert!(o.schedule(1).tasks.is_empty());
}

#[test]
fn failed_entry_waits_for_running_nodes_before_settling() {
    let mut o = engine(vec![node(1, 1, NodeKind::Script, false, None), node(2, 1, NodeKind::Script, false, None)], 2, 1);
    o.schedule(1);
    let first = o.receive(&event(1, NodeStatus::Failed));
    assert_eq!(first.workflow_status, None);
    let second = o.receive(&event(2, NodeStatus::Completed));
    assert_eq!(second.workflow_status, Some(WorkflowStatus::Failed));
}
