use porcupine_rs::wing_gong::{
    check_subhistory, first_violation, partition, CheckResult, Entry, HistoryBuilder, KVModel,
    KVOp, Model,
};

fn s(x: &str) -> String {
    x.to_string()
}

fn verdict(history: Vec<Entry<KVModel>>) -> Option<(String, Vec<usize>)> {
    let results: Vec<(String, CheckResult)> = partition(history)
        .into_iter()
        .map(|(key, ops)| (key, check_subhistory(ops)))
        .collect();
    first_violation(results)
}

#[test]
fn wing_gong_linearizable_history() {
    let mut b = HistoryBuilder::<KVModel>::new();
    b.add("x", KVOp::Write(s("1")), None, 0, 40);
    b.add("x", KVOp::Read, Some(Some(s("1"))), 20, 60);
    b.add("x", KVOp::Write(s("2")), None, 50, 90);
    b.add("x", KVOp::Read, Some(Some(s("2"))), 80, 120);
    assert!(verdict(b.build()).is_none());
}

#[test]
fn wing_gong_read_of_unwritten_value() {
    let mut b = HistoryBuilder::<KVModel>::new();
    b.add("x", KVOp::Write(s("1")), None, 0, 50);
    b.add("x", KVOp::Read, Some(Some(s("2"))), 0, 80);
    // The write can be linearized; the read after it cannot.
    assert_eq!(verdict(b.build()), Some((s("x"), vec![0])));
}

#[test]
fn wing_gong_one_key_clean_one_violates() {
    let mut b = HistoryBuilder::<KVModel>::new();
    b.add("y", KVOp::Write(s("a")), None, 0, 30);
    b.add("y", KVOp::Read, Some(Some(s("a"))), 20, 50);
    b.add("z", KVOp::Write(s("a")), None, 0, 30);
    b.add("z", KVOp::Read, Some(Some(s("b"))), 20, 50);
    let history = b.build();
    let groups = partition(history.clone());
    assert_eq!(groups.len(), 2);
    assert_eq!(groups[0].0, "y");
    assert_eq!(groups[1].0, "z");
    assert_eq!(groups[0].1.iter().map(|e| e.id).collect::<Vec<_>>(), vec![0, 1]);
    assert_eq!(groups[1].1.iter().map(|e| e.id).collect::<Vec<_>>(), vec![2, 3]);
    assert_eq!(verdict(history), Some((s("z"), vec![2])));
}

#[test]
fn wing_gong_pending_write() {
    let mut b = HistoryBuilder::<KVModel>::new();
    b.add("x", KVOp::Write(s("9")), None, 0, u64::MAX);
    b.add("x", KVOp::Read, Some(None), 5, 40);
    assert!(verdict(b.build()).is_none());
}

#[test]
fn wing_gong_pending_builder() {
    let mut b = HistoryBuilder::<KVModel>::new();
    b.pending("x", KVOp::Write(s("9")), 3);
    b.add("x", KVOp::Read, Some(Some(s("9"))), 5, 40);
    let h = b.build();
    assert_eq!(h.len(), 2);
    assert_eq!(h[0].id, 0);
    assert_eq!(h[1].id, 1);
    assert_eq!(h[0].ret_time, u64::MAX);
    assert!(h[0].ret.is_none());
    assert!(matches!(check_subhistory(h), CheckResult::Linearizable));
}

#[test]
fn wing_gong_read_before_write_returns_nothing() {
    // The read finished before the write began, so it must see no value.
    let mut b = HistoryBuilder::<KVModel>::new();
    b.add("x", KVOp::Read, Some(Some(s("1"))), 0, 10);
    b.add("x", KVOp::Write(s("1")), None, 20, 30);
    assert!(matches!(
        check_subhistory(b.build()),
        CheckResult::NotLinearizable { .. }
    ));
}

#[test]
fn wing_gong_backtracks_over_concurrent_writes() {
    // Two overlapping writes; the later read sees the first one, so the
    // search has to place the second write before the first.
    let mut b = HistoryBuilder::<KVModel>::new();
    b.add("x", KVOp::Write(s("1")), Some(None), 0, 10);
    b.add("x", KVOp::Write(s("2")), Some(None), 0, 10);
    b.add("x", KVOp::Read, Some(Some(s("1"))), 20, 30);
    assert!(matches!(check_subhistory(b.build()), CheckResult::Linearizable));
}

#[test]
fn wing_gong_first_violation_in_given_order() {
    let results = vec![
        (s("a"), CheckResult::Linearizable),
        (s("b"), CheckResult::NotLinearizable { witness: vec![4] }),
        (s("c"), CheckResult::NotLinearizable { witness: vec![7] }),
    ];
    assert_eq!(first_violation(results), Some((s("b"), vec![4])));
    assert_eq!(first_violation(vec![(s("a"), CheckResult::Linearizable)]), None);
    assert_eq!(first_violation(vec![]), None);
}

#[test]
fn wing_gong_partition_keeps_order_within_key() {
    let mut b = HistoryBuilder::<KVModel>::new();
    b.add("x", KVOp::Write(s("1")), None, 0, 10);
    b.add("y", KVOp::Write(s("2")), None, 5, 15);
    b.add("x", KVOp::Read, Some(Some(s("1"))), 20, 30);
    b.add("y", KVOp::Read, Some(Some(s("2"))), 25, 35);
    b.add("z", KVOp::Read, Some(None), 40, 50);
    let groups = partition(b.build());
    let keys: Vec<&str> = groups.iter().map(|g| g.0.as_str()).collect();
    assert_eq!(keys, vec!["x", "y", "z"]);
    let ids: Vec<Vec<usize>> = groups.iter().map(|g| g.1.iter().map(|e| e.id).collect()).collect();
    assert_eq!(ids, vec![vec![0, 2], vec![1, 3], vec![4]]);
}

#[test]
fn wing_gong_instant_entries_on_two_keys() {
    // Each key on its own is fine; the key-by-key verdict says so.
    let mut b = HistoryBuilder::<KVModel>::new();
    b.add("a", KVOp::Write(s("1")), Some(None), 5, 5);
    b.add("b", KVOp::Write(s("2")), Some(None), 5, 5);
    assert!(verdict(b.build()).is_none());
}

#[test]
fn wing_gong_witness_is_longest_prefix() {
    // Both writes can be linearized, in real-time order; the read of the
    // first value after them cannot.
    let mut b = HistoryBuilder::<KVModel>::new();
    b.add("x", KVOp::Write(s("1")), Some(None), 0, 10);
    b.add("x", KVOp::Write(s("2")), Some(None), 20, 30);
    b.add("x", KVOp::Read, Some(Some(s("1"))), 40, 50);
    match check_subhistory(b.build()) {
        CheckResult::NotLinearizable { witness } => assert_eq!(witness, vec![0, 1]),
        CheckResult::Linearizable => panic!("expected a violation"),
    }
}

#[test]
fn wing_gong_returns_compare_by_text() {
    assert!(KVModel::ret_eq(&Some(s("a")), &Some(s("a"))));
    assert!(!KVModel::ret_eq(&Some(s("a")), &Some(s("b"))));
    assert!(!KVModel::ret_eq(&None, &Some(s("a"))));
    assert!(!KVModel::ret_eq(&Some(s("")), &None));
    assert!(KVModel::ret_eq(&None, &None));
}
