use native_spark::aggregator::RangeVecOp;
use native_spark::context::Context;
use native_spark::parallel_collection::ParallelCollection;
use native_spark::rdd::map_rdd;
use native_spark::rdd::Rdd;

#[test]
fn test_make_rdd() {
    let mut sc = Context::new();
    let col = ParallelCollection::new(&mut sc, (0..10).collect::<Vec<_>>(), 32).unwrap();
    let vec_iter = map_rdd(col, &mut sc, RangeVecOp);
    let res = vec_iter.collect();

    let expected = (0..10)
        .map(|i| (0..i).collect::<Vec<_>>())
        .collect::<Vec<_>>();
    println!("{:?}", res);
    assert_eq!(expected, res);
}

#[test]
fn test_take() {
    let mut sc = Context::new();
    let col1 = vec![1, 2, 3, 4, 5, 6];
    let col1_rdd = ParallelCollection::new(&mut sc, col1, 4).unwrap();

    let taken_1 = col1_rdd.take(1);
    assert_eq!(taken_1.len(), 1);

    let taken_3 = col1_rdd.take(3);
    assert_eq!(taken_3.len(), 3);

    let taken_5 = col1_rdd.take(7);
    assert_eq!(taken_5.len(), 6);

    let col2: Vec<i32> = vec![];
    let col2_rdd = ParallelCollection::new(&mut sc, col2, 4).unwrap();
    let taken_0 = col2_rdd.take(1);
    assert!(taken_0.is_empty());
}

#[test]
fn test_first() {
    let mut sc = Context::new();
    let col1 = vec![1, 2, 3, 4];
    let col1_rdd = ParallelCollection::new(&mut sc, col1, 4).unwrap();

    let taken_1 = col1_rdd.first();
    assert!(taken_1.is_ok());
}
