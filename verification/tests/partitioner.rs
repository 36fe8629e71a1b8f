use native_spark::partitioner::HashPartitioner;
use native_spark::partitioner::Key;
use native_spark::partitioner::Partitioner;

#[test]
fn hash_partition() {
    let data = vec![1, 2];
    let num_partition = 3;
    let hash_partitioner = HashPartitioner::<i32>::new(num_partition).unwrap();
    for i in &data {
        println!("value: {:?}-hash: {:?}", i, i.stable_hash());
        println!(
            "value: {:?}-index: {:?}",
            i,
            hash_partitioner.get_partition(i)
        );
    }
    let mut partition = vec![Vec::new(); num_partition];
    for i in &data {
        let index = hash_partitioner.get_partition(i);
        partition[index].push(i)
    }
    assert_eq!(partition.len(), 3)
}

#[test]
fn hash_partitioner_eq() {
    let p1 = HashPartitioner::<i32>::new(1).unwrap();
    let p2_1 = HashPartitioner::<i32>::new(2).unwrap();
    let p2_2 = HashPartitioner::<i32>::new(2).unwrap();
    assert!(p1.equals(&p1));
    assert!(p1.clone().equals(&p1));
    assert!(p2_1.equals(&p2_1));
    assert!(p2_1.equals(&p2_2));
    assert!(p2_2.equals(&p2_1));
    assert!(!p1.equals(&p2_1));
    assert!(!p1.equals(&p2_2));
    let mut p1 = Some(p1);
    assert!(p1.clone().map(|p| (&p).equals(&p1.clone().unwrap())) == Some(true));
    assert!(p1.clone().map(|p| p.equals(&p2_1.clone())) == Some(false));
    assert!(p1.clone().map(|p| p.equals(&p2_2.clone())) == Some(false));
    assert!(p1.clone().map(|p| p.equals(&p1.clone().unwrap())) != None);
    assert!(
        p1.clone()
            .map_or(false, |p| (&p).equals(&p1.clone().unwrap()))
    );
    assert!(!p1.clone().map_or(false, |p| p.equals(&p2_1.clone())));
    assert!(!p1.clone().map_or(false, |p| p.equals(&p2_2.clone())));
    p1 = None;
    assert!(p1.clone().map(|p| p.equals(&p1.clone().unwrap())) == None);
    assert!(p1.clone().map(|p| p.equals(&p2_1.clone())) == None);
    assert!(p1.clone().map(|p| p.equals(&p2_2.clone())) == None);
    assert!(
        !p1.clone()
            .map_or(false, |p| (&p).equals(&p1.clone().unwrap()))
    );
    assert!(!p1.clone().map_or(false, |p| p.equals(&p2_1.clone())));
    assert!(!p1.clone().map_or(false, |p| p.equals(&p2_2.clone())));
}

#[test]
fn partition_always_in_range() {
    let p = HashPartitioner::<i32>::new(7).unwrap();
    assert_eq!(p.get_num_of_partitions(), 7);
    for k in -50..50 {
        assert!(p.get_partition(&k) < 7);
    }
    let q = HashPartitioner::<String>::new(3).unwrap();
    for k in ["", "a", "b", "spark", "shuffle"] {
        assert!(q.get_partition(&k.to_string()) < 3);
    }
}

#[test]
fn partition_deterministic_across_instances() {
    let p1 = HashPartitioner::<String>::new(3).unwrap();
    let p2 = HashPartitioner::<String>::new(3).unwrap();
    for k in ["a", "b", "c", "d", "e", "key-with-dashes"] {
        assert_eq!(
            p1.get_partition(&k.to_string()),
            p2.get_partition(&k.to_string())
        );
    }
}
