use native_spark::aggregator::AddU64Op;
use native_spark::aggregator::ComposeOp;
use native_spark::aggregator::RangeVecOp;
use native_spark::aggregator::VecLenOp;
use native_spark::context::Context;
use native_spark::context::Dependency;
use native_spark::env::is_master_role;
use native_spark::env::Env;
use native_spark::env::Hosts;
use native_spark::env::MapOutputTracker;
use native_spark::error::RddError;
use native_spark::parallel_collection::ParallelCollection;
use native_spark::partitioner::HashPartitioner;
use native_spark::partitioner::Partitioner;
use native_spark::rdd::map_rdd;
use native_spark::rdd::Rdd;
use native_spark::rdd::pair_rdd::group_by_key;
use native_spark::rdd::pair_rdd::join;
use native_spark::rdd::pair_rdd::map_values;
use native_spark::rdd::pair_rdd::reduce_by_key;
use native_spark::shuffle_fetcher::shuffle_block_path;
use native_spark::shuffle_fetcher::ShuffleFetcher;
use native_spark::shuffled_rdd::map_side_buckets;
use native_spark::shuffle_fetcher::FetchAction;
use native_spark::shuffle_fetcher::FetchAttempt;
use native_spark::shuffle_fetcher::FetchEvent;
use native_spark::shuffle_manager::fresh_dir_candidate;
use native_spark::shuffle_manager::u64_to_dec_string;
use native_spark::shuffle_manager::DirAttempt;
use native_spark::shuffle_manager::LocalDirPicker;
use native_spark::shuffle_manager::ShuffleManager;
use std::marker::PhantomData;

#[test]
fn slicing_balanced_and_covering() {
    let data: Vec<i32> = (0..10).collect();
    let slices = ParallelCollection::slice(data.clone(), 4).unwrap();
    assert_eq!(slices.len(), 4);
    let sizes: Vec<usize> = slices.iter().map(|s| s.len()).collect();
    let total: usize = sizes.iter().sum();
    assert_eq!(total, 10);
    let smallest = sizes.iter().min().unwrap();
    let largest = sizes.iter().max().unwrap();
    assert!(largest - smallest <= 1);
    assert_eq!(sizes, vec![2, 3, 2, 3]);
    let rebuilt: Vec<i32> = slices.into_iter().flatten().collect();
    assert_eq!(rebuilt, data);
}

#[test]
fn slicing_zero_slices_is_rejected() {
    let out = ParallelCollection::slice(vec![1, 2, 3], 0);
    assert!(matches!(out, Err(RddError::BadSliceCount)));
    let mut sc = Context::new();
    let rdd = ParallelCollection::new(&mut sc, vec![1, 2, 3], 0);
    assert!(matches!(rdd, Err(RddError::BadSliceCount)));
}

#[test]
fn parallelize_empty_gives_empty_partitions() {
    let mut sc = Context::new();
    let rdd = ParallelCollection::new(&mut sc, Vec::<i32>::new(), 4).unwrap();
    assert_eq!(rdd.number_of_splits(), 4);
    let splits = rdd.splits();
    assert_eq!(splits.len(), 4);
    for (i, s) in splits.iter().enumerate() {
        assert_eq!(s.index, i);
        let part = rdd.compute(s);
        assert!(part.is_empty());
    }
    assert!(rdd.collect().is_empty());
}

#[test]
fn collect_restores_input_order() {
    let mut sc = Context::new();
    let data = vec![5, 4, 3, 2, 1, 0];
    let rdd = ParallelCollection::new(&mut sc, data.clone(), 3).unwrap();
    assert_eq!(rdd.collect(), data);
}

#[test]
fn splits_carry_contiguous_indices() {
    let mut sc = Context::new();
    let rdd = ParallelCollection::new(&mut sc, (0..7).collect::<Vec<i32>>(), 3).unwrap();
    let splits = rdd.splits();
    assert_eq!(splits.len(), 3);
    for (i, s) in splits.iter().enumerate() {
        assert_eq!(s.index, i);
        assert_eq!(s.rdd_id, rdd.get_rdd_id());
    }
    let typed = rdd.typed_splits();
    assert_eq!(typed.len(), 3);
    let mut rebuilt: Vec<i32> = Vec::new();
    for t in &typed {
        rebuilt.extend(t.iterator());
    }
    assert_eq!(rebuilt, (0..7).collect::<Vec<i32>>());
}

#[test]
fn map_records_dependency_on_parent() {
    let mut sc = Context::new();
    let rdd = ParallelCollection::new(&mut sc, (0..4).collect::<Vec<i32>>(), 2).unwrap();
    let parent_id = rdd.get_rdd_id();
    assert!(rdd.get_dependencies().is_empty());
    let mapped = map_rdd(rdd, &mut sc, RangeVecOp);
    assert_eq!(
        mapped.get_dependencies(),
        vec![Dependency::NarrowOneToOne { parent_rdd_id: parent_id }]
    );
    assert_ne!(mapped.get_rdd_id(), parent_id);
}

#[test]
fn map_twice_equals_mapped_composition() {
    let data: Vec<i32> = (0..9).collect();
    let mut sc1 = Context::new();
    let a1 = ParallelCollection::new(&mut sc1, data.clone(), 4).unwrap();
    let twice = map_rdd(map_rdd(a1, &mut sc1, RangeVecOp), &mut sc1, VecLenOp);
    let mut sc2 = Context::new();
    let a2 = ParallelCollection::new(&mut sc2, data, 4).unwrap();
    let fused = map_rdd(
        a2,
        &mut sc2,
        ComposeOp { first: RangeVecOp, second: VecLenOp, _marker: PhantomData },
    );
    assert_eq!(twice.collect(), fused.collect());
    assert_eq!(twice.collect(), (0..9).map(|i| i as u64).collect::<Vec<u64>>());
}

#[test]
fn reduce_by_key_sums_per_key() {
    let mut sc = Context::new();
    let data = vec![
        ("a".to_string(), 1u64),
        ("b".to_string(), 2u64),
        ("a".to_string(), 3u64),
    ];
    let rdd = ParallelCollection::new(&mut sc, data, 2).unwrap();
    let reduced = reduce_by_key(rdd, &mut sc, AddU64Op, 4).unwrap();
    assert_eq!(reduced.number_of_splits(), 4);
    let mut out = reduced.collect();
    out.sort();
    assert_eq!(out, vec![("a".to_string(), 4u64), ("b".to_string(), 2u64)]);
}

#[test]
fn group_by_key_collects_values() {
    let mut sc = Context::new();
    let data = vec![("a".to_string(), 1u64), ("a".to_string(), 2u64)];
    let rdd = ParallelCollection::new(&mut sc, data, 2).unwrap();
    let grouped = group_by_key(rdd, &mut sc, 2).unwrap();
    let out = grouped.collect();
    assert_eq!(out.len(), 1);
    let (k, mut vs) = out.into_iter().next().unwrap();
    assert_eq!(k, "a");
    vs.sort();
    assert_eq!(vs, vec![1u64, 2u64]);
}

#[test]
fn group_by_key_zero_splits_is_rejected() {
    let mut sc = Context::new();
    let data = vec![("a".to_string(), 1u64)];
    let rdd = ParallelCollection::new(&mut sc, data, 1).unwrap();
    let grouped = group_by_key(rdd, &mut sc, 0);
    assert!(matches!(grouped, Err(RddError::PartitionerArityError)));
    assert!(matches!(
        HashPartitioner::<i32>::new(0),
        Err(RddError::PartitionerArityError)
    ));
}

#[test]
fn shuffle_respects_partitioner_routing() {
    let mut sc = Context::new();
    let data: Vec<(u64, u64)> = (0..20).map(|i| (i % 5, 1u64)).collect();
    let rdd = ParallelCollection::new(&mut sc, data, 3).unwrap();
    let reduced = reduce_by_key(rdd, &mut sc, AddU64Op, 3).unwrap();
    let part = reduced.partitioner().clone();
    let splits = reduced.splits();
    let mut seen = 0;
    for s in &splits {
        let bucket = reduced.compute(s);
        for (k, c) in bucket {
            assert_eq!(part.get_partition(&k), s.index);
            assert_eq!(c, 4u64);
            seen += 1;
        }
    }
    assert_eq!(seen, 5);
}

#[test]
fn map_values_keeps_keys() {
    let mut sc = Context::new();
    let data = vec![(1u64, 3i32), (2u64, 0i32)];
    let rdd = ParallelCollection::new(&mut sc, data, 2).unwrap();
    let mapped = map_values(rdd, &mut sc, RangeVecOp);
    let out = mapped.collect();
    assert_eq!(out, vec![(1u64, vec![0, 1, 2]), (2u64, vec![])]);
}

#[test]
fn join_pairs_matching_keys() {
    let mut sc = Context::new();
    let a = ParallelCollection::new(&mut sc, vec![(1i64, 10u64), (2i64, 20u64)], 2).unwrap();
    let b = ParallelCollection::new(
        &mut sc,
        vec![(1i64, 100u64), (1i64, 200u64), (3i64, 300u64)],
        2,
    )
    .unwrap();
    let joined = join(a, b, &mut sc, 2).unwrap();
    let mut out = joined.collect();
    out.sort();
    assert_eq!(out, vec![(1i64, (10u64, 100u64)), (1i64, (10u64, 200u64))]);
}

#[test]
fn shuffle_cache_put_then_get() {
    let mut m = ShuffleManager::new("127.0.0.1", "/tmp/spark-local-test".to_string());
    assert!(m.get_shuffle_cache(1, 2, 3).is_none());
    m.put_shuffle_cache(1, 2, 3, vec![9, 9, 9]);
    assert_eq!(m.get_shuffle_cache(1, 2, 3), Some(vec![9, 9, 9]));
    m.put_shuffle_cache(1, 2, 3, vec![7]);
    assert_eq!(m.get_shuffle_cache(1, 2, 3), Some(vec![7]));
    m.put_shuffle_cache(1, 2, 4, vec![5]);
    assert_eq!(m.get_shuffle_cache(1, 2, 3), Some(vec![7]));
    assert_eq!(m.get_shuffle_cache(1, 2, 4), Some(vec![5]));
    assert!(m.get_shuffle_cache(0, 2, 4).is_none());
}

#[test]
fn shuffle_manager_addresses() {
    let m = ShuffleManager::new("10.0.0.9", "/tmp/spark-local-here".to_string());
    let uri = m.get_server_uri();
    assert!(uri.starts_with("http://10.0.0.9:"));
    let port: u16 = uri.rsplit(':').next().unwrap().parse().unwrap();
    assert!((5000..6000).contains(&port));
    assert_eq!(
        m.get_output_file(7, 8, 9),
        "/tmp/spark-local-here/shuffle/7/8/9".to_string()
    );
    assert_eq!(shuffle_block_path(7, 8, 9), "/shuffle/7/8/9".to_string());
    assert_eq!(u64_to_dec_string(90210), "90210".to_string());
    assert_eq!(u64_to_dec_string(0), "0".to_string());
}

#[test]
fn fresh_dir_candidates_are_distinct() {
    let a = fresh_dir_candidate("/tmp");
    let b = fresh_dir_candidate("/tmp");
    assert!(a.starts_with("/tmp/spark-local-"));
    assert_eq!(a.len(), "/tmp/spark-local-".len() + 36);
    assert_ne!(a, b);
}

#[test]
fn dir_picker_takes_free_candidate_and_gives_up_after_ten() {
    let mut picker = LocalDirPicker::new();
    match picker.offer("/tmp/spark-local-x".to_string(), false) {
        DirAttempt::Chosen(d) => assert_eq!(d, "/tmp/spark-local-x"),
        _ => panic!("a free candidate must be chosen"),
    }
    let mut picker = LocalDirPicker::new();
    for _ in 0..9 {
        assert!(matches!(
            picker.offer("/tmp/spark-local-x".to_string(), true),
            DirAttempt::Retry
        ));
    }
    assert!(matches!(
        picker.offer("/tmp/spark-local-x".to_string(), true),
        DirAttempt::Failed(RddError::LocalDirUnavailable)
    ));
}

#[test]
fn fetch_retries_back_off_then_fail() {
    let mut attempt = FetchAttempt::new(3, 1, 2);
    assert!(matches!(
        attempt.step(FetchEvent::TransientFailure),
        FetchAction::RetryAfter(100)
    ));
    assert!(matches!(
        attempt.step(FetchEvent::TransientFailure),
        FetchAction::RetryAfter(200)
    ));
    assert!(matches!(
        attempt.step(FetchEvent::TransientFailure),
        FetchAction::RetryAfter(400)
    ));
    match attempt.step(FetchEvent::TransientFailure) {
        FetchAction::GiveUp(RddError::FetchFailed { shuffle_id, map_index, reduce_index }) => {
            assert_eq!((shuffle_id, map_index, reduce_index), (3, 1, 2));
        },
        _ => panic!("the budget was spent"),
    }
    let mut ok = FetchAttempt::new(3, 1, 2);
    assert!(matches!(ok.step(FetchEvent::Delivered), FetchAction::Done));
}

#[test]
fn tracker_returns_locations_of_one_shuffle() {
    let mut tracker = MapOutputTracker::new();
    tracker.register_map_output(4, 0, "http://a:5001".to_string());
    tracker.register_map_output(5, 0, "http://b:5002".to_string());
    tracker.register_map_output(4, 1, "http://c:5003".to_string());
    let locations = tracker.get_locations(4);
    assert_eq!(
        locations,
        vec![(0, "http://a:5001".to_string()), (1, "http://c:5003".to_string())]
    );
    assert!(tracker.get_locations(9).is_empty());
}

#[test]
fn env_bundles_role_and_manager() {
    let hosts = Hosts { master: "10.0.0.1:3000".to_string(), slaves: vec![] };
    let env = Env::new(
        true,
        hosts,
        "10.0.0.2".to_string(),
        "/tmp/spark-local-env".to_string(),
    );
    assert!(env.is_master);
    assert_eq!(env.local_ip, "10.0.0.2");
    assert_eq!(env.shuffle_manager.local_dir, "/tmp/spark-local-env");
    assert!(is_master_role(None));
    assert!(is_master_role(Some(&"master".to_string())));
    assert!(!is_master_role(Some(&"slave".to_string())));
}

#[test]
fn first_of_empty_is_an_error() {
    let mut sc = Context::new();
    let rdd = ParallelCollection::new(&mut sc, Vec::<i32>::new(), 2).unwrap();
    assert!(matches!(rdd.first(), Err(RddError::EmptyCollection)));
    let described = RddError::EmptyCollection.describe();
    assert!(!described.is_empty());
}

#[test]
fn fetched_blocks_merge_per_key() {
    let fetcher = ShuffleFetcher;
    let blocks = vec![vec![(1u64, 2u64)], vec![(1u64, 3u64), (2u64, 1u64)]];
    let merged = fetcher.merge_fetched_blocks(blocks, &AddU64Op);
    assert_eq!(merged, vec![(1u64, 5u64), (2u64, 1u64)]);
    let swapped = vec![vec![(1u64, 3u64), (2u64, 1u64)], vec![(1u64, 2u64)]];
    let mut merged_swapped = fetcher.merge_fetched_blocks(swapped, &AddU64Op);
    merged_swapped.sort();
    assert_eq!(merged_swapped, vec![(1u64, 5u64), (2u64, 1u64)]);
}

#[test]
fn map_side_buckets_route_every_record() {
    let part = HashPartitioner::<u64>::new(3).unwrap();
    let pairs: Vec<(u64, u64)> = (0..12).map(|i| (i % 4, 1u64)).collect();
    let buckets = map_side_buckets(&pairs, &AddU64Op, &part);
    assert_eq!(buckets.len(), 3);
    let mut all: Vec<(u64, u64)> = Vec::new();
    for (i, bucket) in buckets.iter().enumerate() {
        for (k, c) in bucket {
            assert_eq!(part.get_partition(k), i);
            all.push((*k, *c));
        }
    }
    all.sort();
    assert_eq!(all, vec![(0u64, 3u64), (1u64, 3u64), (2u64, 3u64), (3u64, 3u64)]);
}

#[test]
fn every_error_kind_describes_itself() {
    let kinds = vec![
        RddError::ConfigError,
        RddError::BadSliceCount,
        RddError::PartitionerArityError,
        RddError::SplitTypeMismatch,
        RddError::FetchFailed { shuffle_id: 1, map_index: 2, reduce_index: 3 },
        RddError::SerializationError,
        RddError::IoError,
        RddError::LocalDirUnavailable,
        RddError::EmptyCollection,
    ];
    for kind in kinds {
        assert!(!kind.describe().is_empty());
    }
}
