use tiaf::fifo::{Fifo, FifoError};
use tiaf::record::Record;

#[test]
fn test_fifo() {
    let mut fifo = Fifo::new(10);
    let r = Record::new("test".to_string());
    fifo.put(r.clone()).unwrap();
    assert_eq!(fifo.length(), 1);
    let r2 = fifo.pop().unwrap();
    assert_eq!(r, r2);
    assert_eq!(fifo.length(), 0);
}

#[test]
fn test_fifo_full() {
    let mut fifo = Fifo::<Record>::new(10);
    for i in 0..10 {
        let r = Record::new(i.to_string());
        fifo.put(r).unwrap();
    }
    assert_eq!(fifo.length(), 10);
    let r = Record::new("test".to_string());
    assert_eq!(fifo.put(r), Err(FifoError::Full));
}

#[test]
fn test_fifo_empty() {
    let mut fifo = Fifo::<Record>::new(10);
    assert_eq!(fifo.length(), 0);
    assert_eq!(fifo.pop(), Err(FifoError::Empty));
}

#[test]
fn test_fifo_max_top() {
    let mut fifo = Fifo::new(10);
    let mut recs = Vec::<Record>::new();
    for i in 0..10 {
        let r = Record::new(i.to_string());
        recs.push(r.clone());
        fifo.put(r).unwrap();
    }
    assert_eq!(fifo.length(), 10);
    assert_eq!(fifo.pop(), Ok(recs[0].clone()));
}

#[test]
fn test_fifo_drain() {
    let mut fifo = Fifo::new(10);
    let mut recs = Vec::<Record>::new();
    for i in 0..10 {
        let r = Record::new(i.to_string());
        recs.push(r.clone());
        fifo.put(r).unwrap();
    }
    assert_eq!(fifo.length(), 10);
    let v = fifo.drain();
    assert_eq!(v.len(), 10);
    assert_eq!(fifo.length(), 0);
    assert_eq!(v, recs);
}

#[test]
fn test_fifo_wraps_around() {
    let mut fifo = Fifo::new(3);
    fifo.put(1u64).unwrap();
    fifo.put(2u64).unwrap();
    assert_eq!(fifo.pop(), Ok(1));
    fifo.put(3u64).unwrap();
    fifo.put(4u64).unwrap();
    assert_eq!(fifo.put(5u64), Err(FifoError::Full));
    assert_eq!(fifo.drain(), vec![2, 3, 4]);
}
