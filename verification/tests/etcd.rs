use porcupine_rs::model::whole_history;
use porcupine_rs::checker::{check_single, combine_verdicts};
use porcupine_rs::etcd::{EtcdInput, EtcdModel, EtcdOp, EtcdOutput};
use porcupine_rs::jepsen::{etcd_events, kv_events, EtcdLogLine, KvLogLine};
use porcupine_rs::kv::{combine_kv, KvInput, KvOp, KvOutput};
use porcupine_rs::partition::Partition;
use porcupine_rs::visualization::is_drawable;
use porcupine_rs::{CheckResult, Event, EventModel, Model, Operation};
use std::sync::atomic::AtomicBool;

#[test]
fn etcd_read_of_unset_register() {
    let unset = EtcdModel::init();
    let read_nothing = EtcdOp::Read { exists: false, value: 0, unknown: false };
    assert_eq!(EtcdModel::step(&unset, &read_nothing), (true, unset));
    let read_five = EtcdOp::Read { exists: true, value: 5, unknown: false };
    assert_eq!(EtcdModel::step(&unset, &read_five), (false, unset));
    assert_eq!(EtcdModel::step(&5, &read_five), (true, 5));
    let timed_out = EtcdOp::Read { exists: false, value: 0, unknown: true };
    assert_eq!(EtcdModel::step(&5, &timed_out), (true, 5));
}

#[test]
fn etcd_compare_and_set() {
    let cas = EtcdOp::Cas { from: 1, to: 2, ok: true, unknown: false };
    assert_eq!(EtcdModel::step(&1, &cas), (true, 2));
    assert_eq!(EtcdModel::step(&3, &cas), (false, 3));
    let failed = EtcdOp::Cas { from: 1, to: 2, ok: false, unknown: false };
    assert_eq!(EtcdModel::step(&3, &failed), (true, 3));
    // A compare-and-set that timed out is accepted, and takes effect when it
    // could have.
    let unknown = EtcdOp::Cas { from: 1, to: 2, ok: false, unknown: true };
    assert_eq!(EtcdModel::step(&1, &unknown), (true, 2));
    assert_eq!(EtcdModel::step(&7, &EtcdOp::Write { value: 9 }), (true, 9));
}

#[test]
fn etcd_combine_pairs_inputs_with_outputs() {
    let op = EtcdModel::combine(
        &EtcdInput::Cas { from: 1, to: 2 },
        &EtcdOutput::Cas { ok: true, unknown: false },
    );
    assert_eq!(op, EtcdOp::Cas { from: 1, to: 2, ok: true, unknown: false });
    let op = EtcdModel::combine(
        &EtcdInput::Read,
        &EtcdOutput::Read { exists: true, value: 4, unknown: false },
    );
    assert_eq!(op, EtcdOp::Read { exists: true, value: 4, unknown: false });
}

#[test]
fn etcd_log_lines_make_events() {
    let lines = vec![
        EtcdLogLine::InvokeWrite { process: 0, value: 3 },
        EtcdLogLine::InvokeRead { process: 1 },
        EtcdLogLine::ReturnWrite { process: 0 },
        EtcdLogLine::ReturnRead { process: 1, value: Some(3) },
        EtcdLogLine::InvokeCas { process: 2, from: 3, to: 4 },
    ];
    let events = etcd_events(&lines).expect("a well-formed log");
    assert_eq!(events.len(), 6);
    // The compare-and-set never completed: it ends with a timeout.
    match &events[5] {
        Event::Return { client_id, value, id, .. } => {
            assert_eq!(*client_id, Some(2));
            assert_eq!(*id, 2);
            assert!(matches!(value, EtcdOutput::Cas { ok: false, unknown: true }));
        }
        _ => panic!("expected a return"),
    }
    assert!(porcupine_rs::check_events(events));
}

#[test]
fn etcd_log_read_of_a_value_never_written() {
    let lines = vec![
        EtcdLogLine::InvokeWrite { process: 0, value: 3 },
        EtcdLogLine::ReturnWrite { process: 0 },
        EtcdLogLine::InvokeRead { process: 1 },
        EtcdLogLine::ReturnRead { process: 1, value: Some(4) },
    ];
    let events = etcd_events(&lines).expect("a well-formed log");
    assert!(!porcupine_rs::check_events(events));
}

#[test]
fn etcd_log_completion_without_invocation_is_refused() {
    let lines = vec![EtcdLogLine::ReturnWrite { process: 0 }];
    assert!(etcd_events(&lines).is_none());
}

#[test]
fn etcd_timed_out_read_takes_the_pending_kind() {
    let lines = vec![
        EtcdLogLine::InvokeWrite { process: 0, value: 3 },
        EtcdLogLine::TimeoutRead { process: 0 },
    ];
    let events = etcd_events(&lines).expect("a well-formed log");
    assert!(matches!(events[1], Event::Return { value: EtcdOutput::Write, id: 0, .. }));
}

#[derive(Clone, Debug)]
struct Kv;

impl Model for Kv {
    fn partition_operations(history: Vec<Operation<Self>>) -> Vec<Vec<Operation<Self>>> {
        whole_history(history)
    }

    type State = String;
    type Op = KvOp;
    type Metadata = ();
    fn init() -> String {
        String::new()
    }
    fn step(state: &String, op: &KvOp) -> (bool, String) {
        match op {
            KvOp::Read { value, .. } => (*value == *state, state.clone()),
            KvOp::Write { value, .. } => (true, value.clone()),
            KvOp::Append { value, .. } => (true, state.clone() + value),
        }
    }
}

impl EventModel for Kv {
    fn partition_events(history: Vec<Event<Self>>) -> Vec<Vec<Event<Self>>> {
        whole_history(history)
    }

    type Input = KvInput;
    type Output = KvOutput;
    fn combine(input: &KvInput, output: &KvOutput) -> KvOp {
        combine_kv(input, output)
    }
}

#[test]
fn kv_log_lines_make_events() {
    let lines = vec![
        KvLogLine::InvokeWrite { process: 0, key: "x".into(), value: "a".into() },
        KvLogLine::ReturnWrite { process: 0 },
        KvLogLine::ReturnWrite { process: 5 },
        KvLogLine::InvokeAppend { process: 1, key: "x".into(), value: "b".into() },
        KvLogLine::InvokeRead { process: 2, key: "x".into() },
        KvLogLine::ReturnRead { process: 2, value: "ab".into() },
    ];
    let events: Vec<Event<Kv>> = kv_events(lines);
    // The completion of process 5 had nothing to complete and was skipped;
    // the append never completed and ends with an acknowledgement.
    assert_eq!(events.len(), 6);
    assert!(matches!(events[5], Event::Return { value: KvOutput::Append, id: 1, .. }));
    assert!(porcupine_rs::check_events(events));
}

#[test]
fn kv_pending_read_completes_with_empty_value() {
    let lines = vec![KvLogLine::InvokeRead { process: 3, key: "k".into() }];
    let events: Vec<Event<Kv>> = kv_events(lines);
    match &events[1] {
        Event::Return { value: KvOutput::Read { value }, id, client_id, .. } => {
            assert_eq!(value, "");
            assert_eq!(*id, 0);
            assert_eq!(*client_id, Some(3));
        }
        _ => panic!("expected a read return"),
    }
}

#[test]
fn kv_keys_and_combination() {
    let input = KvInput::Write { key: "k".into(), value: "v".into() };
    assert_eq!(input.key(), "k");
    let op = combine_kv(&input, &KvOutput::Write);
    assert_eq!(op.key(), "k");
    assert!(matches!(op, KvOp::Write { ref value, .. } if value == "v"));
    let op = combine_kv(&KvInput::Read { key: "q".into() }, &KvOutput::Read { value: "r".into() });
    assert!(matches!(op, KvOp::Read { ref key, ref value } if key == "q" && value == "r"));
}

#[test]
fn verdicts_combine_illegal_first() {
    let (legal, illegal, unknown) = (CheckResult::Legal, CheckResult::Illegal, CheckResult::Unknown);
    assert_eq!(combine_verdicts(&vec![]), legal);
    assert_eq!(combine_verdicts(&vec![legal, legal]), legal);
    assert_eq!(combine_verdicts(&vec![legal, unknown]), unknown);
    assert_eq!(combine_verdicts(&vec![unknown, illegal, legal]), illegal);
}

fn write(call: i64, ret: i64, value: i32) -> Operation<EtcdModel> {
    Operation {
        client_id: Some(0),
        call_time: call,
        return_time: ret,
        op: EtcdOp::Write { value },
        metadata: None,
    }
}

fn read(call: i64, ret: i64, value: i32) -> Operation<EtcdModel> {
    Operation {
        client_id: Some(1),
        call_time: call,
        return_time: ret,
        op: EtcdOp::Read { exists: true, value, unknown: false },
        metadata: None,
    }
}

#[test]
fn cancelled_search_is_unknown() {
    let partition = Partition::from_operations(vec![write(0, 10, 1), read(20, 30, 1)]);
    let kill = AtomicBool::new(true);
    let (verdict, _) = check_single(&partition, Some(&kill), false);
    assert_eq!(verdict, CheckResult::Unknown);
    let (verdict, _) = check_single(&partition, None, false);
    assert_eq!(verdict, CheckResult::Legal);
}

#[test]
fn stale_read_after_write_is_illegal() {
    let history = vec![write(0, 10, 1), write(20, 30, 2), read(40, 50, 1)];
    assert!(!porcupine_rs::check_operations(history));
    let history = vec![write(0, 10, 1), write(20, 30, 2), read(25, 50, 1)];
    assert!(porcupine_rs::check_operations(history));
}

#[test]
fn info_on_illegal_history_lists_partial_linearizations() {
    let history = vec![write(0, 10, 1), write(20, 30, 2), read(40, 50, 1)];
    let (verdict, info) = porcupine_rs::check_operations_info(history);
    assert_eq!(verdict, CheckResult::Illegal);
    assert!(is_drawable(&info));
    assert_eq!(info.partial_linearizations.len(), 1);
    // The two writes could be linearized, the read never.
    assert_eq!(info.partial_linearizations[0], vec![vec![0, 1]]);
}

#[test]
fn kv_completion_of_another_kind_pairs_with_the_pending_call() {
    let lines = vec![
        KvLogLine::InvokeWrite { process: 0, key: "x".into(), value: "a".into() },
        KvLogLine::ReturnRead { process: 0, value: "z".into() },
    ];
    let events: Vec<Event<Kv>> = kv_events(lines);
    assert_eq!(events.len(), 2);
    match &events[1] {
        Event::Return { value: KvOutput::Read { value }, id, client_id, .. } => {
            assert_eq!(value, "z");
            assert_eq!(*id, 0);
            assert_eq!(*client_id, Some(0));
        }
        _ => panic!("expected the read completion as the write's return"),
    }
}

#[test]
fn etcd_completion_of_another_kind_pairs_with_the_pending_call() {
    let lines = vec![
        EtcdLogLine::InvokeWrite { process: 4, value: 7 },
        EtcdLogLine::ReturnRead { process: 4, value: Some(7) },
    ];
    let events = etcd_events(&lines).expect("the completion has an invocation waiting");
    assert_eq!(events.len(), 2);
    assert!(matches!(
        events[1],
        Event::Return { value: EtcdOutput::Read { exists: true, value: 7, unknown: false }, id: 0, .. }
    ));
}
