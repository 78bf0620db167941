use dag_consensus::aggregators::{
    CertificatesAggregator, DagError, RoundRules, Vote, VotesAggregator,
};
use dag_consensus::committee::{Authority, Committee};
use dag_consensus::types::{Certificate, Header, Signature};

fn committee() -> Committee {
    Committee {
        authorities: (1..=4u64).map(|name| Authority { name, stake: 1 }).collect(),
        quorum_threshold: 3,
        validity_threshold: 2,
        fast_path_threshold: 3,
        solid_step_length: 1,
        solid_wave_length: 2,
        fast_coin_candidate_threshold: 0,
        solid_candidate_threshold: 0,
    }
}

fn signature(seed: u8) -> Signature {
    Signature { part1: [seed; 32], part2: [seed.wrapping_add(1); 32] }
}

fn header(author: u64, round: u64, id: u64) -> Header {
    Header {
        author,
        round,
        id,
        payload: Vec::new(),
        parents: Vec::new(),
        solid_step_vertices: Vec::new(),
        solid_step_vertices_merged: Vec::new(),
        solid_wave_vertices: Vec::new(),
        solid_wave_vertices_merged: Vec::new(),
        wave_back_link_target_round: 0,
        wave_back_link_author_bitmap: Vec::new(),
    }
}

fn certificate(author: u64, round: u64) -> Certificate {
    Certificate { header: header(author, round, 1000 + round * 10 + author), digest: round * 10 + author, votes: Vec::new() }
}

fn vote(author: u64) -> Vote {
    Vote { id: 100, round: 1, origin: 1, author, signature: signature(author as u8) }
}

#[test]
fn votes_form_a_certificate_at_quorum() {
    let committee = committee();
    let h = header(1, 1, 100);
    let mut agg = VotesAggregator::new();
    assert!(matches!(agg.append(vote(1), &committee, &h, 777), Ok(None)));
    assert!(matches!(agg.append(vote(2), &committee, &h, 777), Ok(None)));
    match agg.append(vote(3), &committee, &h, 777) {
        Ok(Some(cert)) => {
            assert_eq!(cert.digest, 777);
            assert_eq!(cert.header.id, 100);
            assert_eq!(cert.header.author, 1);
            assert_eq!(
                cert.votes,
                vec![(1, signature(1)), (2, signature(2)), (3, signature(3))]
            );
        }
        _ => panic!("a quorum of votes forms a certificate"),
    }
}

#[test]
fn second_vote_of_an_authority_is_refused() {
    let committee = committee();
    let h = header(1, 1, 100);
    let mut agg = VotesAggregator::new();
    assert!(matches!(agg.append(vote(2), &committee, &h, 777), Ok(None)));
    assert_eq!(agg.append(vote(2), &committee, &h, 777).err(), Some(DagError::AuthorityReuse(2)));
    assert!(matches!(agg.append(vote(3), &committee, &h, 777), Ok(None)));
    assert!(matches!(agg.append(vote(4), &committee, &h, 777), Ok(Some(_))));
}

#[test]
fn quorum_is_reached_only_once() {
    let committee = committee();
    let h = header(1, 1, 100);
    let mut agg = VotesAggregator::new();
    assert!(matches!(agg.append(vote(1), &committee, &h, 777), Ok(None)));
    assert!(matches!(agg.append(vote(2), &committee, &h, 777), Ok(None)));
    assert!(matches!(agg.append(vote(3), &committee, &h, 777), Ok(Some(_))));
    assert!(matches!(agg.append(vote(4), &committee, &h, 777), Ok(None)));
}

#[test]
fn votes_of_outsiders_carry_no_stake() {
    let committee = committee();
    let h = header(1, 1, 100);
    let mut agg = VotesAggregator::new();
    assert!(matches!(agg.append(vote(9), &committee, &h, 777), Ok(None)));
    assert!(matches!(agg.append(vote(8), &committee, &h, 777), Ok(None)));
    assert!(matches!(agg.append(vote(7), &committee, &h, 777), Ok(None)));
    assert!(matches!(agg.append(vote(1), &committee, &h, 777), Ok(None)));
}

fn rules(is_solid_step: bool, threshold: u32) -> RoundRules {
    RoundRules {
        regular_weak_start: 3,
        cross_step_weak_start: 1,
        back_link_target_round: 2,
        processing_threshold: threshold,
        is_solid_step,
    }
}

#[test]
fn certificates_gather_parents_until_the_strong_weight_suffices() {
    let committee = committee();
    let rules = rules(false, 3);
    let mut agg = CertificatesAggregator::new(4);

    let mut strong = certificate(1, 4);
    strong.header.solid_step_vertices = vec![10, 11];
    strong.header.wave_back_link_target_round = 2;
    strong.header.wave_back_link_author_bitmap = vec![0b101];
    assert!(matches!(agg.append(strong.clone(), &committee, &rules), Ok(None)));
    // A second certificate of the expected round from the same author is ignored.
    assert!(matches!(agg.append(strong, &committee, &rules), Ok(None)));

    let mut regular_weak = certificate(2, 3);
    regular_weak.header.solid_step_vertices = vec![77];
    regular_weak.header.solid_step_vertices_merged = vec![11, 12];
    assert!(matches!(agg.append(regular_weak, &committee, &rules), Ok(None)));

    let mut cross_weak = certificate(3, 1);
    cross_weak.header.solid_step_vertices = vec![99];
    cross_weak.header.solid_wave_vertices = vec![50];
    assert!(matches!(agg.append(cross_weak, &committee, &rules), Ok(None)));

    // Round 0 lies before the cross-step window: ignored.
    assert!(matches!(agg.append(certificate(4, 0), &committee, &rules), Ok(None)));

    assert!(matches!(agg.append(certificate(2, 4), &committee, &rules), Ok(None)));
    match agg.append(certificate(3, 4), &committee, &rules) {
        Ok(Some(parents)) => {
            assert_eq!(parents.parents, vec![41, 32, 42, 43, 13]);
            assert_eq!(parents.solid_step_union, vec![10, 11, 12]);
            assert_eq!(parents.solid_wave_union, vec![50]);
            assert_eq!(parents.wave_back_link_target_round, 2);
            assert_eq!(parents.wave_back_link_author_bitmap, vec![0b101]);
        }
        _ => panic!("three strong authors meet the threshold"),
    }
    assert!(agg.last_solid_step_union_digests().is_none());
    assert_eq!(agg.prioritized_parent_set(&committee), vec![41, 32, 42, 43, 13]);
}

#[test]
fn solid_step_rounds_count_distinct_step_vertices() {
    let committee = committee();
    let rules = rules(true, 3);
    let mut agg = CertificatesAggregator::new(4);

    let mut first = certificate(1, 4);
    first.header.solid_step_vertices = vec![1, 2];
    assert!(matches!(agg.append(first, &committee, &rules), Ok(None)));
    assert_eq!(agg.last_solid_step_union_digests(), Some(&[1u64, 2][..]));

    let mut second = certificate(2, 3);
    second.header.solid_step_vertices = vec![2, 3];
    match agg.append(second, &committee, &rules) {
        Ok(Some(parents)) => {
            assert_eq!(parents.parents, vec![41, 32]);
            assert_eq!(parents.solid_step_union, vec![1, 2, 3]);
        }
        _ => panic!("three distinct solid-step vertices meet the threshold"),
    }
    assert_eq!(agg.last_solid_step_union_digests(), Some(&[1u64, 2, 3][..]));
}

#[test]
fn back_link_bitmap_records_tracked_authors() {
    let committee = committee();
    let rules = RoundRules {
        regular_weak_start: 2,
        cross_step_weak_start: 1,
        back_link_target_round: 2,
        processing_threshold: 10,
        is_solid_step: false,
    };
    let mut agg = CertificatesAggregator::new(4);
    // A certificate of the tracked round adds its author's bit (authority 3 is at position 2).
    assert!(matches!(agg.append(certificate(3, 2), &committee, &rules), Ok(None)));
    let mut strong = certificate(1, 4);
    strong.header.wave_back_link_target_round = 2;
    strong.header.wave_back_link_author_bitmap = vec![0b1000];
    assert!(matches!(agg.append(strong, &committee, &rules), Ok(None)));
    let relaxed = RoundRules { processing_threshold: 1, ..rules };
    match agg.append(certificate(2, 4), &committee, &relaxed) {
        Ok(Some(parents)) => {
            assert_eq!(parents.wave_back_link_author_bitmap, vec![0b1100]);
            assert_eq!(parents.parents, vec![23, 41, 42]);
        }
        _ => panic!("the threshold is met"),
    }
}

#[test]
fn ancestry_score_orders_its_criteria() {
    let mut cert = certificate(3, 2);
    cert.header.wave_back_link_target_round = 2;
    cert.header.wave_back_link_author_bitmap = vec![0b11, 0b1];
    cert.header.solid_wave_vertices = vec![1, 2];
    cert.header.solid_wave_vertices_merged = vec![5];
    cert.header.solid_step_vertices = vec![7, 8, 9];
    assert_eq!(CertificatesAggregator::cross_step_weak_parent_score(&cert, 2), 1_030_103);
    assert_eq!(CertificatesAggregator::cross_step_weak_parent_score(&cert, 0), 103);
}

#[test]
fn cross_step_weak_parents_are_prioritised_within_the_budget() {
    let mut committee = committee();
    committee.validity_threshold = 1;
    let rules = RoundRules {
        regular_weak_start: 4,
        cross_step_weak_start: 1,
        back_link_target_round: 0,
        processing_threshold: 100,
        is_solid_step: false,
    };
    let mut agg = CertificatesAggregator::new(4);
    assert_eq!(agg.cross_step_weak_budget(&committee), 2);
    let mut low = certificate(1, 3);
    low.header.solid_step_vertices = vec![1];
    let mut high = certificate(2, 1);
    high.header.solid_wave_vertices = vec![1];
    let mut tie_late = certificate(3, 2);
    tie_late.header.solid_step_vertices = vec![1];
    assert!(matches!(agg.append(low, &committee, &rules), Ok(None)));
    assert!(matches!(agg.append(high, &committee, &rules), Ok(None)));
    assert!(matches!(agg.append(tie_late, &committee, &rules), Ok(None)));
    assert!(matches!(agg.append(certificate(4, 4), &committee, &rules), Ok(None)));
    // Scores: 31 -> 1, 12 -> 100, 23 -> 1; the budget keeps two of them.
    assert_eq!(agg.prioritized_parent_set(&committee), vec![44, 12, 31]);
}

#[test]
fn proposal_keeps_only_the_best_cross_step_weak_parents() {
    let mut committee = committee();
    committee.validity_threshold = 1;
    let rules = RoundRules {
        regular_weak_start: 4,
        cross_step_weak_start: 1,
        back_link_target_round: 0,
        processing_threshold: 2,
        is_solid_step: false,
    };
    let mut agg = CertificatesAggregator::new(4);
    let mut low = certificate(1, 3);
    low.header.solid_step_vertices = vec![1];
    let mut high = certificate(2, 1);
    high.header.solid_wave_vertices = vec![1];
    let tie_late = certificate(3, 2);
    assert!(matches!(agg.append(low, &committee, &rules), Ok(None)));
    assert!(matches!(agg.append(high, &committee, &rules), Ok(None)));
    assert!(matches!(agg.append(tie_late, &committee, &rules), Ok(None)));
    assert!(matches!(agg.append(certificate(4, 4), &committee, &rules), Ok(None)));
    match agg.append(certificate(1, 4), &committee, &rules) {
        Ok(Some(parents)) => {
            // Budget 2: scores 12 -> 100, 31 -> 1, 23 -> 0.
            assert_eq!(parents.parents, vec![44, 41, 12, 31]);
        }
        _ => panic!("two strong authors meet the threshold"),
    }
}

#[test]
fn a_reached_quorum_stays_reached() {
    let committee = committee();
    let rules = rules(false, 2);
    let mut agg = CertificatesAggregator::new(4);
    assert!(matches!(agg.append(certificate(1, 4), &committee, &rules), Ok(None)));
    assert!(matches!(agg.append(certificate(2, 4), &committee, &rules), Ok(Some(_))));
    match agg.append(certificate(3, 3), &committee, &rules) {
        Ok(Some(parents)) => assert_eq!(parents.parents, vec![41, 42, 33]),
        _ => panic!("the quorum stays reached"),
    }
    // An ignored certificate hands out nothing.
    assert!(matches!(agg.append(certificate(2, 4), &committee, &rules), Ok(None)));
}
