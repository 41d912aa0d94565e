use tiaf::mempool::{MemPool, MemPoolError};
use tiaf::record::Record;

#[test]
fn test_mempool() {
    let mut mempool = MemPool::new(10);
    let r = Record::new("hello".to_string());
    mempool.put(r.clone()).unwrap();
    assert_eq!(mempool.length(), 1);
    assert!(mempool.contains(&r));
    mempool.reset();
    assert_eq!(mempool.length(), 0);
}

#[test]
fn test_mempool_full() {
    let mut mempool = MemPool::new(10);
    for i in 0..10 {
        let r = Record::new(i.to_string());
        mempool.put(r).unwrap();
    }
    assert_eq!(mempool.length(), 10);
    let r = Record::new("test".to_string());
    assert_eq!(mempool.put(r), Err(MemPoolError::Full));
}

#[test]
fn test_mempool_empty() {
    let mut mempool = MemPool::new(10);
    assert_eq!(mempool.length(), 0);
    assert_eq!(mempool.reset(), Vec::<Record>::new());
}

#[test]
fn test_mempool_max_top() {
    let mut mempool = MemPool::new(10);
    let mut recs = Vec::<Record>::new();
    for i in 0..10 {
        let r = Record::new(i.to_string());
        recs.push(r.clone());
        mempool.put(r).unwrap();
    }
    assert_eq!(mempool.length(), 10);
    let gotten = mempool.reset();
    assert_eq!(gotten, recs);
}

#[test]
fn test_mempool_dupes() {
    let mut mempool = MemPool::new(10);
    let r = Record::new("hello".to_string());
    mempool.put(r.clone()).unwrap();
    assert_eq!(mempool.length(), 1);
    assert!(mempool.contains(&r));
    mempool.put(r.clone()).unwrap();
    assert_eq!(mempool.length(), 1);
    assert!(mempool.contains(&r));
    mempool.reset();
    assert_eq!(mempool.length(), 0);
}
