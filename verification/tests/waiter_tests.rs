use dag_consensus::header_waiter::{HeaderWaiter, WaiterMessage};
use dag_consensus::keys::{batch_key, certificate_key};
use dag_consensus::types::Header;

fn header(id: u64, round: u64, payload: Vec<u64>) -> Header {
    Header {
        author: 1,
        round,
        id,
        payload,
        parents: Vec::new(),
        solid_step_vertices: Vec::new(),
        solid_step_vertices_merged: Vec::new(),
        solid_wave_vertices: Vec::new(),
        solid_wave_vertices_merged: Vec::new(),
        wave_back_link_target_round: 0,
        wave_back_link_author_bitmap: Vec::new(),
    }
}

#[test]
fn missing_batches_are_requested_by_worker() {
    let mut waiter = HeaderWaiter::new(5);
    let message = WaiterMessage::SyncBatches(vec![(5, 1), (6, 2), (7, 1)], header(100, 3, vec![5, 6, 7]), true);
    let plan = waiter.handle_message(&message).expect("a new header gets a plan");
    assert_eq!(plan.header_id, 100);
    assert_eq!(plan.round, 3);
    assert_eq!(plan.wait_keys, vec![batch_key(5, 1), batch_key(6, 2), batch_key(7, 1)]);
    assert_eq!(plan.sync_requests, vec![(1, vec![5, 7]), (2, vec![6])]);
}

#[test]
fn a_header_is_synced_only_once() {
    let mut waiter = HeaderWaiter::new(5);
    let message = WaiterMessage::SyncBatches(vec![(5, 1)], header(100, 3, vec![5]), true);
    assert!(waiter.handle_message(&message).is_some());
    assert!(waiter.handle_message(&message).is_none());
    let parents = WaiterMessage::SyncParents(vec![9], header(100, 3, vec![5]));
    assert!(waiter.handle_message(&parents).is_none());
}

#[test]
fn a_batch_is_requested_only_once() {
    let mut waiter = HeaderWaiter::new(5);
    let first = WaiterMessage::SyncBatches(vec![(5, 1), (6, 1)], header(100, 3, vec![5, 6]), true);
    let plan = waiter.handle_message(&first).unwrap();
    assert_eq!(plan.sync_requests, vec![(1, vec![5, 6])]);
    let second = WaiterMessage::SyncBatches(vec![(5, 1), (8, 1), (6, 2)], header(101, 4, vec![5, 8, 6]), true);
    let plan = waiter.handle_message(&second).unwrap();
    assert_eq!(plan.wait_keys, vec![batch_key(5, 1), batch_key(8, 1), batch_key(6, 2)]);
    assert_eq!(plan.sync_requests, vec![(1, vec![8])]);
}

#[test]
fn missing_parents_are_waited_for_by_certificate_key() {
    let mut waiter = HeaderWaiter::new(5);
    let message = WaiterMessage::SyncParents(vec![20, 21], header(102, 5, Vec::new()));
    let plan = waiter.handle_message(&message).unwrap();
    assert_eq!(plan.wait_keys, vec![certificate_key(20), certificate_key(21)]);
    assert!(plan.sync_requests.is_empty());
}

#[test]
fn a_ready_header_releases_its_batches() {
    let mut waiter = HeaderWaiter::new(5);
    let ready = header(100, 3, vec![5, 7]);
    let message = WaiterMessage::SyncBatches(vec![(5, 1), (7, 1)], ready.clone(), true);
    assert!(waiter.handle_message(&message).is_some());
    waiter.header_ready(&ready);
    // The header no longer waits, and its batches may be requested again.
    let plan = waiter.handle_message(&message).unwrap();
    assert_eq!(plan.sync_requests, vec![(1, vec![5, 7])]);
}

#[test]
fn cleanup_drops_what_is_below_the_gc_round() {
    let mut waiter = HeaderWaiter::new(5);
    let old_batches = WaiterMessage::SyncBatches(vec![(5, 1)], header(101, 4, vec![5]), true);
    let old_parents = WaiterMessage::SyncParents(vec![9], header(102, 5, Vec::new()));
    let recent = WaiterMessage::SyncParents(vec![9], header(103, 6, Vec::new()));
    assert!(waiter.handle_message(&old_batches).is_some());
    assert!(waiter.handle_message(&old_parents).is_some());
    assert!(waiter.handle_message(&recent).is_some());

    // The consensus is not beyond the depth yet: nothing happens.
    assert!(waiter.cleanup(5).is_empty());

    let mut canceled = waiter.cleanup(10);
    canceled.sort();
    assert_eq!(canceled, vec![101, 102]);
    assert!(waiter.handle_message(&recent).is_none());
    let again = waiter.handle_message(&old_batches).unwrap();
    assert_eq!(again.sync_requests, vec![(1, vec![5])]);
}

#[test]
fn a_header_that_need_not_wait_only_has_its_batches_requested() {
    let mut waiter = HeaderWaiter::new(5);
    let message = WaiterMessage::SyncBatches(vec![(5, 1)], header(100, 3, vec![5]), false);
    let plan = waiter.handle_message(&message).unwrap();
    assert!(plan.wait_keys.is_empty());
    assert_eq!(plan.sync_requests, vec![(1, vec![5])]);
    // The header is not held back, and the batch is not requested again.
    let again = WaiterMessage::SyncBatches(vec![(5, 1)], header(100, 3, vec![5]), true);
    let plan = waiter.handle_message(&again).unwrap();
    assert_eq!(plan.wait_keys, vec![batch_key(5, 1)]);
    assert!(plan.sync_requests.is_empty());
}
