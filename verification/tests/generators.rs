use ycsb::generators::{Constant, Counter, Generator};

#[test]
fn constant_always_returns_value() {
    let mut g = Constant::new(42);
    assert_eq!(g.next(), 42);
    assert_eq!(g.next(), 42);
    assert_eq!(g.next(), 42);
}

#[test]
fn counter_sequential_values() {
    let mut c = Counter::new(5);
    assert_eq!(c.next(), 5);
    assert_eq!(c.next(), 6);
    assert_eq!(c.next(), 7);
}

#[test]
fn counter_partitions_interval() {
    let mut c = Counter::new(100);
    let mut seen: Vec<u64> = Vec::new();
    for _ in 0..10 {
        seen.push(c.next());
    }
    seen.sort();
    seen.dedup();
    assert_eq!(seen.len(), 10);
    for (i, v) in seen.iter().enumerate() {
        assert_eq!(*v, 100 + i as u64);
    }
}

#[test]
fn counter_starts_at_zero() {
    let mut c = Counter::new(0);
    assert_eq!(c.next(), 0);
    assert_eq!(c.next(), 1);
}
