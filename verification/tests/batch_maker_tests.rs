use dag_consensus::batch_maker::BatchMaker;

fn keys() -> Vec<(u64, u64)> {
    vec![(11, 0), (22, 0), (33, 0), (44, 0)]
}

#[test]
fn select_workers_for_broadcast_rotates_availability_subset() {
    let keys = keys();
    let workers: Vec<(u64, u32, &str)> = vec![
        (keys[0].0, 1, "127.0.0.1:1000"),
        (keys[1].0, 1, "127.0.0.1:1001"),
        (keys[2].0, 1, "127.0.0.1:1002"),
        (keys[3].0, 1, "127.0.0.1:1003"),
    ];

    let (selected, next_index) = BatchMaker::select_workers_for_broadcast(&workers, 2, 0);
    assert_eq!(
        selected.iter().map(|(name, _)| *name).collect::<Vec<_>>(),
        vec![keys[0].0, keys[1].0]
    );
    assert_eq!(next_index, 2);

    let (selected, next_index) =
        BatchMaker::select_workers_for_broadcast(&workers, 2, next_index);
    assert_eq!(
        selected.iter().map(|(name, _)| *name).collect::<Vec<_>>(),
        vec![keys[2].0, keys[3].0]
    );
    assert_eq!(next_index, 0);
}

#[test]
fn select_workers_wraps_around_and_keeps_addresses() {
    let workers: Vec<(u64, u32, u16)> = vec![(1, 0, 1000), (2, 0, 1001), (3, 0, 1002)];
    let (selected, next_index) = BatchMaker::select_workers_for_broadcast(&workers, 2, 2);
    assert_eq!(selected, vec![(3, 1002), (1, 1000)]);
    assert_eq!(next_index, 1);
}

#[test]
fn select_workers_takes_start_modulo_and_caps_count() {
    let workers: Vec<(u64, u32, u16)> = vec![(1, 0, 1000), (2, 0, 1001), (3, 0, 1002)];
    let (selected, next_index) = BatchMaker::select_workers_for_broadcast(&workers, 10, 4);
    assert_eq!(selected, vec![(2, 1001), (3, 1002), (1, 1000)]);
    assert_eq!(next_index, 1);
}

#[test]
fn select_workers_from_nobody() {
    let workers: Vec<(u64, u32, u16)> = Vec::new();
    let (selected, next_index) = BatchMaker::select_workers_for_broadcast(&workers, 3, 7);
    assert!(selected.is_empty());
    assert_eq!(next_index, 0);
}
