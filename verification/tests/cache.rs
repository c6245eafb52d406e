use porcupine_rs::model::whole_history;
use porcupine_rs::bitset::Bitset;
use porcupine_rs::cache::Cache;
use porcupine_rs::model::{Model, Operation};

#[derive(Clone)]
struct IntModel;

impl Model for IntModel {
    fn partition_operations(history: Vec<Operation<Self>>) -> Vec<Vec<Operation<Self>>> {
        whole_history(history)
    }

    type State = i32;
    type Op = i32;
    type Metadata = ();

    fn init() -> i32 {
        0
    }
    fn step(s: &i32, op: &i32) -> (bool, i32) {
        (true, s + op)
    }
}

fn bs(n: usize, set_bits: &[usize]) -> Bitset {
    let mut b = Bitset::new(n);
    for &i in set_bits {
        b.set(i);
    }
    b
}

#[test]
fn miss_on_empty_cache() {
    let cache = Cache::<IntModel>::new();
    assert!(!cache.cache_contains(&bs(4, &[0, 2]), &42));
}

#[test]
fn hit_after_insert() {
    let mut cache = Cache::<IntModel>::new();
    let key = bs(4, &[1, 3]);
    cache.cache_insert(key.clone(), 7);
    assert!(cache.cache_contains(&key, &7));
}

#[test]
fn miss_wrong_state() {
    let mut cache = Cache::<IntModel>::new();
    let key = bs(4, &[0]);
    cache.cache_insert(key.clone(), 99);
    assert!(!cache.cache_contains(&key, &100));
}

#[test]
fn miss_different_bitset_same_state() {
    let mut cache = Cache::<IntModel>::new();
    let key0 = bs(4, &[0]);
    let key1 = bs(4, &[1]);
    cache.cache_insert(key0.clone(), 5);
    assert!(!cache.cache_contains(&key1, &5));
}

#[test]
fn two_entries_both_found() {
    let mut cache = Cache::<IntModel>::new();
    let key0 = bs(4, &[0]);
    let key1 = bs(4, &[1]);
    cache.cache_insert(key0.clone(), 10);
    cache.cache_insert(key1.clone(), 20);
    assert!(cache.cache_contains(&key0, &10));
    assert!(cache.cache_contains(&key1, &20));
    assert!(!cache.cache_contains(&key0, &20));
    assert!(!cache.cache_contains(&key1, &10));
}

#[test]
fn empty_bitset_zero_state() {
    let mut cache = Cache::<IntModel>::new();
    let key = Bitset::new(8);
    cache.cache_insert(key.clone(), 0);
    assert!(cache.cache_contains(&key, &0));
    assert!(!cache.cache_contains(&key, &1));
}

#[test]
fn same_bitset_different_states_both_stored() {
    // Two entries sharing the same bitset but different states must both be
    // findable — this exercises the bucket collision path.
    let mut cache = Cache::<IntModel>::new();
    let key = bs(4, &[2]);
    cache.cache_insert(key.clone(), 100);
    cache.cache_insert(key.clone(), 200);
    assert!(cache.cache_contains(&key, &100));
    assert!(cache.cache_contains(&key, &200));
    assert!(!cache.cache_contains(&key, &300));
}
