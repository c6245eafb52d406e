use porcupine_rs::model::whole_history;
use porcupine_rs::events::renumber;
use porcupine_rs::model::{Event, EventModel, Model, Operation};
use porcupine_rs::partition::{CheckEntry, Partition};

#[derive(Clone)]
struct DummyModel;
impl Model for DummyModel {
    fn partition_operations(history: Vec<Operation<Self>>) -> Vec<Vec<Operation<Self>>> {
        whole_history(history)
    }

    type State = ();
    type Op = ();
    type Metadata = ();
    fn init() {}

    fn step(_: &Self::State, _: &Self::Op) -> (bool, Self::State) {
        (true, ())
    }
}

impl EventModel for DummyModel {
    fn partition_events(history: Vec<Event<Self>>) -> Vec<Vec<Event<Self>>> {
        whole_history(history)
    }

    type Input = i32;
    type Output = i32;
    fn combine(_: &Self::Input, _: &Self::Output) {}
}

fn op(call: i64, ret: i64) -> Operation<DummyModel> {
    Operation {
        client_id: None,
        call_time: call,
        return_time: ret,
        op: (),
        metadata: None,
    }
}

fn call_event(id: usize, v: i32) -> Event<DummyModel> {
    Event::Call {
        client_id: None,
        value: v,
        id,
        metadata: None,
    }
}

fn ret_event(id: usize, v: i32) -> Event<DummyModel> {
    Event::Return {
        client_id: None,
        value: v,
        id,
        metadata: None,
    }
}

// --- from_operations ---

#[test]
fn from_operations_empty() {
    let p = Partition::<DummyModel>::from_operations(vec![]);
    assert!(p.check_history.is_empty());
    assert!(p.ops.is_empty());
}

#[test]
fn from_operations_single_op_two_entries() {
    let p = Partition::from_operations(vec![op(0, 10)]);
    assert_eq!(p.check_history.len(), 2);
    assert_eq!(p.ops.len(), 1);
}

#[test]
fn from_operations_sorted_by_time() {
    // op0: call=5, ret=20 | op1: call=1, ret=10
    // expected: op1_call(1), op0_call(5), op1_ret(10), op0_ret(20)
    let p = Partition::from_operations(vec![op(5, 20), op(1, 10)]);
    let times: Vec<i64> = p.check_history.iter().map(|e| e.time()).collect();
    let mut sorted = times.clone();
    sorted.sort();
    assert_eq!(times, sorted);
}

#[test]
fn from_operations_call_before_return_on_equal_time() {
    let p = Partition::from_operations(vec![op(5, 5)]);
    assert!(matches!(p.check_history[0], CheckEntry::Call { .. }));
    assert!(matches!(p.check_history[1], CheckEntry::Return { .. }));
}

#[test]
fn from_operations_op_index_matches_position() {
    let p = Partition::from_operations(vec![op(0, 2), op(1, 3)]);
    for entry in &p.check_history {
        let i = entry.op_index();
        // ops[i] must exist and its position in the vec equals i.
        assert!(i < p.ops.len());
    }
}

#[test]
fn from_operations_exact_entry_order() {
    let p = Partition::from_operations(vec![op(5, 20), op(1, 10), op(5, 10)]);
    let expected = vec![
        CheckEntry::Call { op_index: 1, time: 1 },
        CheckEntry::Call { op_index: 0, time: 5 },
        CheckEntry::Call { op_index: 2, time: 5 },
        CheckEntry::Return { op_index: 1, time: 10 },
        CheckEntry::Return { op_index: 2, time: 10 },
        CheckEntry::Return { op_index: 0, time: 20 },
    ];
    assert_eq!(p.check_history, expected);
}

// --- from_events ---

#[test]
fn from_events_empty() {
    let p = Partition::<DummyModel>::from_events(vec![]);
    assert!(p.check_history.is_empty());
    assert!(p.ops.is_empty());
}

#[test]
fn from_events_sequential() {
    let evs = vec![
        call_event(0, 10),
        ret_event(0, 10),
        call_event(1, 20),
        ret_event(1, 20),
    ];
    let p = Partition::from_events(evs);
    assert_eq!(p.ops.len(), 2);
    assert_eq!(p.check_history.len(), 4);
}

#[test]
fn from_events_out_of_order_returns() {
    // call(7), call(3), return(3), return(7)
    // renumber: 7→0, 3→1 — ops[0] is the op with id 7, ops[1] the op with id 3
    let evs = vec![
        call_event(7, 0),
        call_event(3, 0),
        ret_event(3, 0),
        ret_event(7, 0),
    ];
    let p = Partition::from_events(evs);
    assert_eq!(p.ops.len(), 2);
    // ops[0] was called first (original id 7, renumbered to 0)
    // call_time = 0 (position of call_ev(7))
    assert_eq!(p.ops[0].call_time, 0);
    // ops[1] was called second (original id 3, renumbered to 1)
    assert_eq!(p.ops[1].call_time, 1);
}

#[test]
fn from_events_timestamps_are_positions() {
    // positions: 0=call(0), 1=call(1), 2=ret(0), 3=ret(1)
    let evs = vec![
        call_event(0, 0),
        call_event(1, 0),
        ret_event(0, 0),
        ret_event(1, 0),
    ];
    let p = Partition::from_events(evs);
    assert_eq!(p.ops[0].call_time, 0);
    assert_eq!(p.ops[0].return_time, 2);
    assert_eq!(p.ops[1].call_time, 1);
    assert_eq!(p.ops[1].return_time, 3);
}

#[test]
fn renumber_makes_ids_dense() {
    let evs = vec![
        call_event(5, 0),
        call_event(99, 0),
        ret_event(5, 0),
        ret_event(99, 0),
    ];
    let p = Partition::from_events(evs);
    // ops[0] = originally id 5, ops[1] = originally id 99
    assert_eq!(p.ops.len(), 2);
}

#[test]
fn renumber_follows_first_appearance() {
    assert_eq!(renumber(&vec![5, 99, 5, 7, 99, 7]), vec![0, 1, 0, 2, 1, 2]);
    assert_eq!(renumber(&vec![]), Vec::<usize>::new());
}

#[test]
fn from_events_check_history_in_event_order() {
    let evs = vec![
        call_event(4, 0),
        call_event(2, 0),
        ret_event(2, 0),
        ret_event(4, 0),
    ];
    let p = Partition::from_events(evs);
    let expected = vec![
        CheckEntry::Call { op_index: 0, time: 0 },
        CheckEntry::Call { op_index: 1, time: 1 },
        CheckEntry::Return { op_index: 1, time: 2 },
        CheckEntry::Return { op_index: 0, time: 3 },
    ];
    assert_eq!(p.check_history, expected);
    assert_eq!(p.ops[0].return_time, 3);
    assert_eq!(p.ops[1].return_time, 2);
}
