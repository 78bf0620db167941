use dag_consensus::committee::{Authority, Committee};
use dag_consensus::quorum_waiter::{AckQuorum, AckStep, QuorumWaiter, SignedBatchAck};
use dag_consensus::synchronizer::{ParentsLookup, Synchronizer};
use dag_consensus::types::{Certificate, Header, Signature};

fn header(author: u64, round: u64, id: u64, parents: Vec<u64>) -> Header {
    Header {
        author,
        round,
        id,
        payload: Vec::new(),
        parents,
        solid_step_vertices: Vec::new(),
        solid_step_vertices_merged: Vec::new(),
        solid_wave_vertices: Vec::new(),
        solid_wave_vertices_merged: Vec::new(),
        wave_back_link_target_round: 0,
        wave_back_link_author_bitmap: Vec::new(),
    }
}

fn certificate(author: u64, round: u64, digest: u64) -> Certificate {
    Certificate { header: header(author, round, digest + 1000, Vec::new()), digest, votes: Vec::new() }
}

fn genesis() -> Vec<Certificate> {
    vec![certificate(1, 0, 1), certificate(2, 0, 2)]
}

#[test]
fn parents_are_complete_when_all_are_known() {
    let sync = Synchronizer::new(&genesis());
    let h = header(3, 2, 500, vec![1, 50, 51]);
    let stored = vec![None, Some(certificate(1, 1, 50)), Some(certificate(2, 1, 51))];
    match sync.get_parents(&h, &stored) {
        ParentsLookup::Complete(parents) => {
            assert_eq!(parents.iter().map(|c| c.digest).collect::<Vec<_>>(), vec![1, 50, 51]);
            assert_eq!(parents[0].header.round, 0);
        }
        ParentsLookup::Missing(_) => panic!("every parent is known"),
    }
}

#[test]
fn missing_parents_are_listed_in_order() {
    let sync = Synchronizer::new(&genesis());
    let h = header(3, 2, 500, vec![52, 1, 50, 51]);
    let stored = vec![None, None, Some(certificate(1, 1, 50)), None];
    match sync.get_parents(&h, &stored) {
        ParentsLookup::Missing(missing) => assert_eq!(missing, vec![52, 51]),
        ParentsLookup::Complete(_) => panic!("two parents are missing"),
    }
}

#[test]
fn genesis_is_always_known() {
    let sync = Synchronizer::new(&genesis());
    assert!(sync.is_genesis(2));
    assert!(!sync.is_genesis(3));
    assert_eq!(sync.genesis_certificate(2).map(|c| c.header.author), Some(2));
    assert!(sync.genesis_certificate(7).is_none());
}

#[test]
fn certificates_are_delivered_once_their_parents_are_stored() {
    let sync = Synchronizer::new(&genesis());
    let cert = Certificate { header: header(3, 2, 600, vec![2, 60]), digest: 70, votes: Vec::new() };
    assert!(sync.deliver_certificate(&cert, &vec![false, true]));
    assert!(!sync.deliver_certificate(&cert, &vec![false, false]));
    assert!(!sync.deliver_certificate(&cert, &vec![true, false]));
}

fn committee() -> Committee {
    Committee {
        authorities: (1..=4u64).map(|name| Authority { name, stake: 1 }).collect(),
        quorum_threshold: 3,
        validity_threshold: 2,
        fast_path_threshold: 3,
        solid_step_length: 1,
        solid_wave_length: 2,
        fast_coin_candidate_threshold: 0,
        solid_candidate_threshold: 0,
    }
}

fn signature(seed: u8) -> Signature {
    Signature { part1: [seed; 32], part2: [seed; 32] }
}

#[test]
fn acknowledgements_form_a_proof_of_availability() {
    let waiter = QuorumWaiter { committee: committee() };
    let mut quorum = AckQuorum::new(9);
    assert!(waiter.add_acknowledgement(&mut quorum, 4, signature(4)).is_none());
    let poa = waiter.add_acknowledgement(&mut quorum, 2, signature(2)).expect("two stakes are enough");
    assert_eq!(poa.digest, 9);
    assert_eq!(poa.acknowledgements, vec![(4, signature(4)), (2, signature(2))]);
}

#[test]
fn acknowledgements_of_outsiders_do_not_count() {
    let waiter = QuorumWaiter { committee: committee() };
    let mut quorum = AckQuorum::new(9);
    assert!(waiter.add_acknowledgement(&mut quorum, 40, signature(1)).is_none());
    assert!(waiter.add_acknowledgement(&mut quorum, 41, signature(1)).is_none());
    assert!(waiter.add_acknowledgement(&mut quorum, 1, signature(1)).is_none());
    assert!(waiter.add_acknowledgement(&mut quorum, 3, signature(3)).is_some());
}

#[test]
fn acknowledgements_must_match_the_batch_and_the_author() {
    let ack = SignedBatchAck { author: 3, digest: 9, signature: signature(3) };
    assert!(QuorumWaiter::acknowledgement_matches(&ack, 3, 9));
    assert!(!QuorumWaiter::acknowledgement_matches(&ack, 2, 9));
    assert!(!QuorumWaiter::acknowledgement_matches(&ack, 3, 8));
}

#[test]
fn a_missing_batch_without_proof_of_availability_blocks() {
    let sync = Synchronizer::new(&genesis());
    let decision = sync.missing_payload(&vec![(0, 0)], &vec![false], &vec![false]);
    assert_eq!(decision.missing, vec![(0, 0)]);
    assert!(decision.wait);
}

#[test]
fn a_missing_batch_with_proof_of_availability_continues() {
    let sync = Synchronizer::new(&genesis());
    let decision = sync.missing_payload(&vec![(0, 0)], &vec![false], &vec![true]);
    assert_eq!(decision.missing, vec![(0, 0)]);
    assert!(!decision.wait);
}

#[test]
fn stored_batches_are_neither_synced_nor_waited_for() {
    let sync = Synchronizer::new(&genesis());
    let decision = sync.missing_payload(&vec![(5, 1), (6, 2), (7, 1)], &vec![true, false, true], &vec![false, true, false]);
    assert_eq!(decision.missing, vec![(6, 2)]);
    assert!(!decision.wait);
}

#[test]
fn a_failed_reply_ends_the_wait() {
    let waiter = QuorumWaiter { committee: committee() };
    let mut quorum = AckQuorum::new(9);
    assert!(matches!(waiter.on_reply(&mut quorum, Some((1, signature(1)))), AckStep::Wait));
    assert!(matches!(waiter.on_reply(&mut quorum, None), AckStep::GiveUp));
    match waiter.on_reply(&mut quorum, Some((2, signature(2)))) {
        AckStep::Available(poa) => assert_eq!(poa.acknowledgements, vec![(1, signature(1)), (2, signature(2))]),
        _ => panic!("two stakes are enough"),
    }
}
