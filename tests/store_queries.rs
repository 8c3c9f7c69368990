use workflow_engine::model::{NodeInstance, NodeKind, NodeStatus, ResourceMeter, WorkflowStatus};
use workflow_engine::predicates::{batch_position, entry_nodes_ready, fan_in_join, JoinOutcome};
use workflow_engine::store::{Batch, NodeStore, StoreError};

fn node(id: u128, flow: u128, kind: NodeKind, is_parent: bool, parent: Option<u128>) -> NodeInstance {
    NodeInstance::new(id, format!("node-{id}"), flow, kind, is_parent, parent)
}

fn with_status(mut n: NodeInstance, s: NodeStatus) -> NodeInstance {
    n.status = s;
    n
}

/// Stages one insert and commits it.
fn insert_one(store: &mut NodeStore, n: NodeInstance) -> Result<(), StoreError> {
    let mut batch = Batch::new();
    batch.insert(n);
    store.commit(batch)
}

fn batch_store() -> NodeStore {
    let mut store = NodeStore::new();
    store.insert_workflow(1).unwrap();
    store.insert_workflow(2).unwrap();
    let mut batch = Batch::new();
    batch.insert(node(10, 1, NodeKind::Script, true, None));
    batch.insert(node(11, 1, NodeKind::Script, false, Some(10)));
    batch.insert(node(20, 2, NodeKind::Script, false, None));
    batch.insert(node(12, 1, NodeKind::Script, false, Some(10)));
    batch.insert(node(13, 1, NodeKind::Script, false, Some(10)));
    store.commit(batch).unwrap();
    store
}

#[test]
fn get_by_id_finds_and_misses() {
    let store = batch_store();
    let n = store.get_by_id(12).unwrap();
    assert_eq!(n.id, 12);
    assert_eq!(n.name, "node-12");
    assert_eq!(n.batch_parent_id, Some(10));
    assert_eq!(store.get_by_id(99).unwrap_err(), StoreError::NotFound);
}

#[test]
fn insert_rejects_a_known_id() {
    let mut store = batch_store();
    assert_eq!(insert_one(&mut store, node(11, 1, NodeKind::NoAction, false, None)), Err(StoreError::DuplicateId));
    assert_eq!(store.node_count(), 5);
    assert_eq!(store.insert_workflow(1), Err(StoreError::DuplicateId));
}

#[test]
fn insert_checks_workflow_and_batch_parent() {
    let mut store = batch_store();
    assert_eq!(insert_one(&mut store, node(30, 9, NodeKind::Script, false, None)), Err(StoreError::UnknownWorkflow));
    // missing parent
    assert_eq!(insert_one(&mut store, node(31, 1, NodeKind::Script, false, Some(77))), Err(StoreError::InvalidParent));
    // parent flag not set
    assert_eq!(insert_one(&mut store, node(32, 1, NodeKind::Script, false, Some(11))), Err(StoreError::InvalidParent));
    // parent of another workflow
    assert_eq!(insert_one(&mut store, node(33, 2, NodeKind::Script, false, Some(10))), Err(StoreError::InvalidParent));
    assert_eq!(store.node_count(), 5);
    assert_eq!(insert_one(&mut store, node(34, 1, NodeKind::Script, false, Some(10))), Ok(()));
    assert_eq!(store.get_nth_of_batch_tasks(34), Ok(3));
}

#[test]
fn update_writes_dynamic_fields_only() {
    let mut store = batch_store();
    let mut changed = node(11, 7, NodeKind::NoAction, true, None);
    changed.status = NodeStatus::Running;
    changed.queue_id = Some(5);
    changed.log = "started".to_string();
    changed.resource_meter = Some(ResourceMeter { cpu_seconds: 3, memory_bytes: 4, wall_seconds: 5 });
    store.update(&changed).unwrap();
    let n = store.get_by_id(11).unwrap();
    assert_eq!(n.status, NodeStatus::Running);
    assert_eq!(n.queue_id, Some(5));
    assert_eq!(n.log, "started");
    assert_eq!(n.resource_meter.unwrap().cpu_seconds, 3);
    assert_eq!(n.flow_instance_id, 1);
    assert_eq!(n.kind, NodeKind::Script);
    assert_eq!(n.batch_parent_id, Some(10));
    assert_eq!(store.update(&node(99, 1, NodeKind::Script, false, None)), Err(StoreError::NotFound));
}

#[test]
fn children_query_keeps_store_order() {
    let store = batch_store();
    let ids: Vec<u128> = store.get_node_sub_node_instances(10).iter().map(|n| n.id).collect();
    assert_eq!(ids, vec![11, 12, 13]);
    assert!(store.get_node_sub_node_instances(11).is_empty());
}

#[test]
fn workflow_queries_filter_by_flow_and_status() {
    let mut store = batch_store();
    store.update(&with_status(node(12, 1, NodeKind::Script, false, Some(10)), NodeStatus::Running)).unwrap();
    let all: Vec<u128> = store.get_all_workflow_instance_nodes(1).iter().map(|n| n.id).collect();
    assert_eq!(all, vec![10, 11, 12, 13]);
    let standby: Vec<u128> = store.get_all_workflow_instance_stand_by_nodes(1).iter().map(|n| n.id).collect();
    assert_eq!(standby, vec![10, 11, 13]);
    let other: Vec<u128> = store.get_all_workflow_instance_nodes(2).iter().map(|n| n.id).collect();
    assert_eq!(other, vec![20]);
}

#[test]
fn nth_of_batch_tasks_is_position_among_siblings() {
    let store = batch_store();
    assert_eq!(store.get_nth_of_batch_tasks(11), Ok(0));
    assert_eq!(store.get_nth_of_batch_tasks(12), Ok(1));
    assert_eq!(store.get_nth_of_batch_tasks(13), Ok(2));
    assert_eq!(store.get_nth_of_batch_tasks(10), Err(StoreError::NotABatchChild));
    assert_eq!(store.get_nth_of_batch_tasks(77), Err(StoreError::NotFound));
}

#[test]
fn nth_of_batch_tasks_is_stable_without_insertions() {
    let mut store = batch_store();
    let first = store.get_nth_of_batch_tasks(13).unwrap();
    assert_eq!(store.get_nth_of_batch_tasks(13).unwrap(), first);
    store.update(&with_status(node(11, 1, NodeKind::Script, false, Some(10)), NodeStatus::Completed)).unwrap();
    store.update(&with_status(node(13, 1, NodeKind::Script, false, Some(10)), NodeStatus::Running)).unwrap();
    assert_eq!(store.get_nth_of_batch_tasks(13).unwrap(), first);
    assert!(first < store.get_node_sub_node_instances(10).len());
}

#[test]
fn entry_gate_of_a_node_workflow() {
    let mut store = batch_store();
    // only node 10 is an entry node of workflow 1
    assert_eq!(store.is_all_same_entryment_nodes_success(13), Ok(true));
    store.update(&with_status(node(11, 1, NodeKind::Script, false, Some(10)), NodeStatus::Failed)).unwrap();
    assert_eq!(store.is_all_same_entryment_nodes_success(13), Ok(true));
    store.update(&with_status(node(10, 1, NodeKind::Script, true, None), NodeStatus::Running)).unwrap();
    assert_eq!(store.is_all_same_entryment_nodes_success(13), Ok(false));
    assert_eq!(store.is_all_same_entryment_nodes_success(20), Ok(true));
    assert_eq!(store.is_all_same_entryment_nodes_success(55), Err(StoreError::NotFound));
}

#[test]
fn entry_gate_statuses() {
    let mk = |s: NodeStatus| with_status(node(1, 1, NodeKind::Script, false, None), s);
    let other = with_status(node(2, 1, NodeKind::Script, false, None), NodeStatus::Completed);
    assert!(entry_nodes_ready(&vec![mk(NodeStatus::Completed), other.duplicate()], 1));
    assert!(entry_nodes_ready(&vec![mk(NodeStatus::Standby), other.duplicate()], 1));
    assert!(!entry_nodes_ready(&vec![mk(NodeStatus::Running), other.duplicate()], 1));
    assert!(!entry_nodes_ready(&vec![other.duplicate(), mk(NodeStatus::Failed)], 1));
    // a running node of another workflow does not count
    assert!(entry_nodes_ready(&vec![mk(NodeStatus::Running)], 2));
    // a running batch child is no entry node
    let child = with_status(node(3, 1, NodeKind::Script, false, Some(9)), NodeStatus::Running);
    assert!(entry_nodes_ready(&vec![child], 1));
}

#[test]
fn entry_gate_holds_with_no_entry_nodes() {
    assert!(entry_nodes_ready(&Vec::new(), 1));
}

#[test]
fn fan_in_join_outcomes() {
    let c = |id: u128, s: NodeStatus| with_status(node(id, 1, NodeKind::Script, false, Some(9)), s);
    assert_eq!(fan_in_join(&vec![c(1, NodeStatus::Completed), c(2, NodeStatus::Completed)]), JoinOutcome::Completed);
    assert_eq!(fan_in_join(&vec![c(1, NodeStatus::Completed), c(2, NodeStatus::Running)]), JoinOutcome::Pending);
    assert_eq!(fan_in_join(&vec![c(1, NodeStatus::Failed), c(2, NodeStatus::Standby)]), JoinOutcome::Pending);
    assert_eq!(fan_in_join(&vec![c(1, NodeStatus::Failed), c(2, NodeStatus::Completed)]), JoinOutcome::Failed);
    assert_eq!(fan_in_join(&vec![c(2, NodeStatus::Completed), c(1, NodeStatus::Failed)]), JoinOutcome::Failed);
    assert_eq!(fan_in_join(&Vec::new()), JoinOutcome::Completed);
}

#[test]
fn batch_position_finds_first_match() {
    let c = |id: u128| node(id, 1, NodeKind::Script, false, Some(9));
    let sib = vec![c(4), c(6), c(5)];
    assert_eq!(batch_position(&sib, 4), Some(0));
    assert_eq!(batch_position(&sib, 5), Some(2));
    assert_eq!(batch_position(&sib, 7), None);
}

#[test]
fn workflow_outcome_waits_for_all_nodes() {
    let mut store = batch_store();
    assert_eq!(store.workflow_outcome(2), None);
    store.update(&with_status(node(20, 2, NodeKind::Script, false, None), NodeStatus::Completed)).unwrap();
    assert_eq!(store.workflow_outcome(2), Some(WorkflowStatus::Completed));
    store.update(&with_status(node(20, 2, NodeKind::Script, false, None), NodeStatus::Failed)).unwrap();
    assert_eq!(store.workflow_outcome(2), Some(WorkflowStatus::Failed));
    assert_eq!(store.get_workflow(1).unwrap().status, WorkflowStatus::Running);
    assert_eq!(store.get_workflow(3), Err(StoreError::NotFound));
}

#[test]
fn commit_applies_every_staged_write_in_order() {
    let mut store = batch_store();
    let mut batch = Batch::new();
    batch.update(&with_status(node(11, 1, NodeKind::Script, false, Some(10)), NodeStatus::Running));
    batch.update(&with_status(node(12, 1, NodeKind::Script, false, Some(10)), NodeStatus::Running));
    batch.update(&with_status(node(11, 1, NodeKind::Script, false, Some(10)), NodeStatus::Completed));
    assert_eq!(batch.len(), 3);
    // nothing is written before the commit
    assert_eq!(store.get_by_id(11).unwrap().status, NodeStatus::Standby);
    assert_eq!(store.commit(batch), Ok(()));
    assert_eq!(store.get_by_id(11).unwrap().status, NodeStatus::Completed);
    assert_eq!(store.get_by_id(12).unwrap().status, NodeStatus::Running);
    assert_eq!(store.get_by_id(13).unwrap().status, NodeStatus::Standby);
}

#[test]
fn commit_with_an_unknown_node_writes_nothing() {
    let mut store = batch_store();
    let mut batch = Batch::new();
    batch.update(&with_status(node(11, 1, NodeKind::Script, false, Some(10)), NodeStatus::Running));
    batch.update(&with_status(node(99, 1, NodeKind::Script, false, None), NodeStatus::Running));
    assert_eq!(store.commit(batch), Err(StoreError::NotFound));
    assert_eq!(store.get_by_id(11).unwrap().status, NodeStatus::Standby);
}

#[test]
fn staging_an_insert_changes_nothing_until_commit() {
    let mut store = batch_store();
    let mut batch = Batch::new();
    assert_eq!(batch.insert(node(40, 1, NodeKind::Script, true, None)), 40);
    assert_eq!(batch.insert(node(41, 1, NodeKind::Script, false, Some(40))), 41);
    assert_eq!(batch.len(), 2);
    assert_eq!(store.node_count(), 5);
    assert_eq!(store.get_by_id(40).unwrap_err(), StoreError::NotFound);
    // a child may name a parent staged earlier in the same batch
    assert_eq!(store.commit(batch), Ok(()));
    assert_eq!(store.node_count(), 7);
    assert_eq!(store.get_nth_of_batch_tasks(41), Ok(0));
}

#[test]
fn commit_mixes_inserts_and_updates_in_order() {
    let mut store = batch_store();
    let mut batch = Batch::new();
    batch.insert(node(40, 1, NodeKind::Script, false, None));
    batch.update(&with_status(node(40, 1, NodeKind::Script, false, None), NodeStatus::Running));
    assert_eq!(store.commit(batch), Ok(()));
    assert_eq!(store.get_by_id(40).unwrap().status, NodeStatus::Running);
}

#[test]
fn failed_commit_applies_no_staged_insert() {
    let mut store = batch_store();
    let mut batch = Batch::new();
    batch.insert(node(40, 1, NodeKind::Script, false, None));
    batch.update(&with_status(node(11, 1, NodeKind::Script, false, Some(10)), NodeStatus::Running));
    batch.insert(node(40, 1, NodeKind::Script, false, None));
    assert_eq!(store.commit(batch), Err(StoreError::DuplicateId));
    assert_eq!(store.node_count(), 5);
    assert_eq!(store.get_by_id(11).unwrap().status, NodeStatus::Standby);
    // the first failing change decides the error
    let mut batch = Batch::new();
    batch.update(&node(99, 1, NodeKind::Script, false, None));
    batch.insert(node(41, 9, NodeKind::Script, false, None));
    assert_eq!(store.commit(batch), Err(StoreError::NotFound));
}
