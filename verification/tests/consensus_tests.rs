use dag_consensus::committee::{Authority, Committee};
use dag_consensus::consensus::Consensus;
use dag_consensus::dag::{CommitStatus, State};
use dag_consensus::types::{Certificate, Header};

fn committee() -> Committee {
    Committee {
        authorities: (1..=4u64).map(|name| Authority { name, stake: 1 }).collect(),
        quorum_threshold: 3,
        validity_threshold: 2,
        fast_path_threshold: 3,
        solid_step_length: 2,
        solid_wave_length: 4,
        fast_coin_candidate_threshold: 0,
        solid_candidate_threshold: 0,
    }
}

fn certificate(author: u64, round: u64, parents: Vec<u64>, solid_wave_vertices: Vec<u64>) -> Certificate {
    let digest = round * 100 + author;
    Certificate {
        header: Header {
            author,
            round,
            id: 10_000 + digest,
            payload: Vec::new(),
            parents,
            solid_step_vertices: Vec::new(),
            solid_step_vertices_merged: Vec::new(),
            solid_wave_vertices,
            solid_wave_vertices_merged: Vec::new(),
            wave_back_link_target_round: 0,
            wave_back_link_author_bitmap: Vec::new(),
        },
        digest,
        votes: Vec::new(),
    }
}

fn genesis() -> Vec<Certificate> {
    (1..=4u64).map(|a| certificate(a, 0, Vec::new(), Vec::new())).collect()
}

fn make_round(round: u64, parents: &Vec<u64>, solid_wave_vertices: &Vec<u64>) -> (Vec<Certificate>, Vec<u64>) {
    let certificates: Vec<Certificate> = (1..=4u64)
        .map(|a| certificate(a, round, parents.clone(), solid_wave_vertices.clone()))
        .collect();
    let digests = certificates.iter().map(|c| c.digest).collect();
    (certificates, digests)
}

/// Feeds rounds 1 to `last` and returns what each certificate commits, in order.
fn run(support: &dyn Fn(u64) -> Vec<u64>, last: u64) -> Vec<Vec<u64>> {
    let mut consensus = Consensus::new(committee(), 50, &genesis());
    let mut parents: Vec<u64> = genesis().iter().map(|c| c.digest).collect();
    let mut outputs = Vec::new();
    for round in 1..=last {
        let (certificates, next) = make_round(round, &parents, &support(round));
        for certificate in certificates {
            let committed = consensus.process_certificate(certificate);
            outputs.push(committed.iter().map(|c| c.digest).collect());
        }
        parents = next;
    }
    outputs
}

// The leader of round 1 is the second authority in committee order (leaders rotate by round).
const LEADER_ROUND_1: u64 = 102;
// The leader of round 5 is the second authority too.
const LEADER_ROUND_5: u64 = 502;

#[test]
fn commits_the_round_one_leader_on_round_five_with_round_three_support() {
    let outputs = run(&|round| if round == 3 { vec![LEADER_ROUND_1] } else { Vec::new() }, 5);
    for (i, committed) in outputs.iter().enumerate() {
        if i == 16 {
            assert_eq!(committed, &vec![LEADER_ROUND_1]);
        } else {
            assert!(committed.is_empty(), "unexpected commit at step {}", i);
        }
    }
}

#[test]
fn no_commit_on_round_five_with_support_only_on_round_four() {
    let mut consensus = Consensus::new(committee(), 50, &genesis());
    let mut parents: Vec<u64> = genesis().iter().map(|c| c.digest).collect();
    let mut all = Vec::new();
    for round in 1..=8u64 {
        let support = if round == 4 { vec![LEADER_ROUND_1] } else { Vec::new() };
        let (certificates, next) = make_round(round, &parents, &support);
        for certificate in certificates {
            all.extend(consensus.process_certificate(certificate).iter().map(|c| c.digest));
        }
        parents = next;
    }
    assert!(all.is_empty());
    let trigger = certificate(1, 5, parents, Vec::new());
    assert!(consensus.process_certificate(trigger).is_empty());
}

#[test]
fn does_not_commit_with_support_below_the_validity_threshold() {
    let mut consensus = Consensus::new(committee(), 50, &genesis());
    let mut parents: Vec<u64> = genesis().iter().map(|c| c.digest).collect();
    let mut all = Vec::new();
    for round in 1..=5u64 {
        let (certificates, next) = make_round(round, &parents, &Vec::new());
        for mut certificate in certificates {
            if round == 3 && certificate.header.author == 1 {
                certificate.header.solid_wave_vertices = vec![LEADER_ROUND_1];
            }
            all.extend(consensus.process_certificate(certificate).iter().map(|c| c.digest));
        }
        parents = next;
    }
    assert!(all.is_empty());
}

#[test]
fn successive_leaders_are_committed_once_each() {
    let outputs = run(
        &|round| match round {
            3 => vec![LEADER_ROUND_1],
            7 => vec![LEADER_ROUND_5],
            _ => Vec::new(),
        },
        9,
    );
    let committed: Vec<u64> = outputs.iter().flatten().copied().collect();
    assert_eq!(committed, vec![LEADER_ROUND_1, LEADER_ROUND_5]);
    assert_eq!(outputs[16], vec![LEADER_ROUND_1]);
    assert_eq!(outputs[32], vec![LEADER_ROUND_5]);
}

#[test]
fn a_stored_certificate_is_found_by_digest_and_header_id() {
    let mut state = State::new(&genesis());
    state.insert(certificate(2, 1, vec![1, 2, 3], Vec::new()));
    let entry = state.find_certificate(102).expect("just stored");
    assert_eq!(entry.digest, 102);
    assert_eq!(entry.certificate.header.author, 2);
    assert_eq!(entry.status, CommitStatus::Pending);
    assert_eq!(state.find_digest(10_102), Some((1, 2)));
    assert_eq!(state.find_digest(102), Some((1, 2)));
    assert!(state.find_certificate(103).is_none());
}

#[test]
fn a_replaced_certificate_leaves_the_indexes() {
    let mut state = State::new(&genesis());
    state.insert(certificate(2, 1, Vec::new(), Vec::new()));
    let mut other = certificate(2, 1, Vec::new(), Vec::new());
    other.digest = 777;
    other.header.id = 778;
    state.insert(other);
    assert!(state.find_certificate(102).is_none());
    assert_eq!(state.find_digest(10_102), None);
    assert_eq!(state.find_certificate(777).map(|e| e.certificate.header.id), Some(778));
}

#[test]
fn garbage_collection_drops_old_and_committed_entries() {
    let mut state = State::new(&genesis());
    for round in 1..=5u64 {
        for author in 1..=2u64 {
            state.insert(certificate(author, round, Vec::new(), Vec::new()));
        }
    }
    let leader = certificate(1, 4, Vec::new(), Vec::new());
    state.record_commit(&leader);
    assert!(state.is_committed(&certificate(1, 3, Vec::new(), Vec::new())));
    assert!(!state.is_committed(&certificate(2, 3, Vec::new(), Vec::new())));
    state.cleanup_committed_history(2);
    // Author 1 keeps rounds from 4 on; everything below round 2 goes.
    assert!(state.find_certificate(301).is_none());
    assert!(state.find_certificate(401).is_some());
    assert!(state.find_certificate(102).is_none());
    assert!(state.find_certificate(202).is_some());
    assert_eq!(state.round_len(1), None);
    assert_eq!(state.round_len(3), Some(1));
}

/// Feeds rounds 1 to `last`; `step(round, author)` gives the solid-step vertices and
/// `wave(round)` the solid-wave vertices of each certificate.
fn run_with(
    step: &dyn Fn(u64, u64) -> Vec<u64>,
    wave: &dyn Fn(u64) -> Vec<u64>,
    last: u64,
) -> Vec<Vec<u64>> {
    let mut consensus = Consensus::new(committee(), 50, &genesis());
    let mut parents: Vec<u64> = genesis().iter().map(|c| c.digest).collect();
    let mut outputs = Vec::new();
    for round in 1..=last {
        let (certificates, next) = make_round(round, &parents, &wave(round));
        for mut certificate in certificates {
            certificate.header.solid_step_vertices = step(round, certificate.header.author);
            let committed = consensus.process_certificate(certificate);
            outputs.push(committed.iter().map(|c| c.digest).collect());
        }
        parents = next;
    }
    outputs
}

fn header_ids(round: u64) -> Vec<u64> {
    (1..=4u64).map(|a| 10_000 + round * 100 + a).collect()
}

#[test]
fn fast_path_commits_one_valent_certificates() {
    let outputs = run_with(
        &|round, _| if round == 2 { header_ids(1) } else { Vec::new() },
        &|_| Vec::new(),
        4,
    );
    for (i, committed) in outputs.iter().enumerate() {
        if i == 6 {
            let mut sorted = committed.clone();
            sorted.sort();
            assert_eq!(sorted, vec![101, 102, 103, 104]);
        } else {
            assert!(committed.is_empty(), "unexpected commit at step {}", i);
        }
    }
}

#[test]
fn bivalent_round_blocks_the_fast_path_until_the_normal_path_catches_up() {
    let outputs = run_with(
        &|round, author| match round {
            2 if author <= 2 => header_ids(1),
            3 => header_ids(2),
            _ => Vec::new(),
        },
        &|round| if round == 3 { vec![LEADER_ROUND_1] } else { Vec::new() },
        5,
    );
    for (i, committed) in outputs.iter().enumerate() {
        if i == 16 {
            assert_eq!(committed, &vec![LEADER_ROUND_1]);
        } else {
            assert!(committed.is_empty(), "unexpected commit at step {}", i);
        }
    }
}

#[test]
fn a_leader_commits_its_sub_dag_in_depth_first_order_by_round() {
    let outputs = run_with(
        &|round, author| if round == 5 && author <= 2 { header_ids(4) } else { Vec::new() },
        &|round| match round {
            3 => vec![LEADER_ROUND_1],
            7 => vec![LEADER_ROUND_5],
            _ => Vec::new(),
        },
        9,
    );
    for (i, committed) in outputs.iter().enumerate() {
        if i == 16 {
            assert_eq!(committed, &vec![LEADER_ROUND_1]);
        } else if i == 32 {
            // The leader's parents are pushed in header order and visited from the last one.
            assert_eq!(committed, &vec![404, 403, 402, 401, LEADER_ROUND_5]);
        } else {
            assert!(committed.is_empty(), "unexpected commit at step {}", i);
        }
    }
}

#[test]
fn the_fast_path_examines_a_round_once() {
    let mut consensus = Consensus::new(committee(), 50, &genesis());
    let genesis_digests: Vec<u64> = genesis().iter().map(|c| c.digest).collect();
    let (round_1, parents) = make_round(1, &genesis_digests, &Vec::new());
    for certificate in round_1 {
        assert!(consensus.process_certificate(certificate).is_empty());
    }
    let (round_2, _) = make_round(2, &parents, &Vec::new());
    let mut committed = Vec::new();
    for mut certificate in round_2.into_iter().take(3) {
        certificate.header.solid_step_vertices = header_ids(1);
        committed.extend(consensus.process_certificate(certificate).iter().map(|c| c.digest));
    }
    committed.sort();
    assert_eq!(committed, vec![101, 102, 103, 104]);
    assert!(consensus.fast_path(2).is_empty());
    assert!(consensus.fast_path(2).is_empty());
}

#[test]
fn the_dag_view_resolves_parents_and_support() {
    let mut consensus = Consensus::new(committee(), 50, &genesis());
    let genesis_digests: Vec<u64> = genesis().iter().map(|c| c.digest).collect();
    let (round_1, parents) = make_round(1, &genesis_digests, &Vec::new());
    for certificate in round_1 {
        consensus.process_certificate(certificate);
    }
    let mut weak = certificate(3, 3, vec![101, 999], vec![102, 555]);
    weak.header.solid_wave_vertices_merged = vec![10_102];
    consensus.process_certificate(weak);
    let lines = consensus.dag_lines(&consensus.state, 4);
    assert_eq!(lines.iter().map(|l| l.round).collect::<Vec<_>>(), vec![3, 1]);
    let top = &lines[0].vertices;
    assert_eq!(top.len(), 1);
    assert_eq!(top[0].author, 3);
    assert_eq!(top[0].node, 2);
    assert_eq!(top[0].parents, vec![Some((1, 0, true)), None]);
    assert_eq!(top[0].solid, vec![Some((1, 1)), None]);
    assert_eq!(top[0].merged, vec![Some((1, 1))]);
    assert_eq!(lines[1].vertices.iter().map(|v| v.author).collect::<Vec<_>>(), vec![1, 2, 3, 4]);
    assert_eq!(
        lines[1].vertices[0].parents,
        vec![Some((0, 0, false)), Some((0, 1, false)), Some((0, 2, false)), Some((0, 3, false))]
    );
    assert!(!parents.is_empty());
}

fn run_committee(committee: Committee, support: &dyn Fn(u64) -> Vec<u64>, last: u64) -> Vec<u64> {
    let mut consensus = Consensus::new(committee, 50, &genesis());
    let mut parents: Vec<u64> = genesis().iter().map(|c| c.digest).collect();
    let mut all = Vec::new();
    for round in 1..=last {
        let (certificates, next) = make_round(round, &parents, &support(round));
        for certificate in certificates {
            all.extend(consensus.process_certificate(certificate).iter().map(|c| c.digest));
        }
        parents = next;
    }
    all
}

#[test]
fn support_is_one_step_before_the_triggering_round() {
    let mut short_steps = committee();
    short_steps.solid_step_length = 1;
    let committed = run_committee(short_steps.clone(), &|round| if round == 4 { vec![LEADER_ROUND_1] } else { Vec::new() }, 5);
    assert_eq!(committed, vec![LEADER_ROUND_1]);
    let committed = run_committee(short_steps, &|round| if round == 2 { vec![LEADER_ROUND_1] } else { Vec::new() }, 5);
    assert!(committed.is_empty());
}
