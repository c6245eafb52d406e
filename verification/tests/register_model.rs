use porcupine_rs::model::whole_history;
use porcupine_rs::{CheckResult, Event, EventModel, Model, Operation};
use std::fmt::Debug;

#[derive(Clone, Debug)]
pub enum RegisterOp {
    Get(Option<u32>),
    Put(u32),
}

#[derive(Debug, Clone)]
pub struct RegisterModel;

impl Model for RegisterModel {
    fn partition_operations(history: Vec<Operation<Self>>) -> Vec<Vec<Operation<Self>>> {
        whole_history(history)
    }

    type State = u32;
    type Op = RegisterOp;
    type Metadata = ();

    fn init() -> u32 {
        0
    }

    fn step(state: &u32, op: &RegisterOp) -> (bool, u32) {
        match op {
            RegisterOp::Get(value) => (*value == Some(*state), *state),
            RegisterOp::Put(value) => (true, *value),
        }
    }

    fn describe_operation(op: &RegisterOp) -> String {
        match op {
            RegisterOp::Get(value) => {
                let v = value.unwrap_or_default();
                format!("get() -> '{v}'").to_string()
            }
            RegisterOp::Put(value) => format!("put('{value}')").to_string(),
        }
    }
}

#[derive(Clone, Debug)]
pub enum RegisterInput {
    Get,
    Put(u32),
}

#[derive(Clone, Debug)]
pub enum RegisterOutput {
    Get(Option<u32>),
    Put,
}

impl EventModel for RegisterModel {
    fn partition_events(history: Vec<Event<Self>>) -> Vec<Vec<Event<Self>>> {
        whole_history(history)
    }

    type Input = RegisterInput;
    type Output = RegisterOutput;

    fn combine(input: &RegisterInput, output: &RegisterOutput) -> RegisterOp {
        match (input, output) {
            (RegisterInput::Get, RegisterOutput::Get(value)) => RegisterOp::Get(*value),
            (RegisterInput::Put(value), RegisterOutput::Put) => RegisterOp::Put(*value),
            _ => panic!("unexpected input/output combination found"),
        }
    }
}

pub fn put(client_id: u32, call: i64, ret: i64, v: u32) -> Operation<RegisterModel> {
    Operation {
        client_id: Some(client_id),
        call_time: call,
        return_time: ret,
        op: RegisterOp::Put(v),
        metadata: None,
    }
}

pub fn get(client_id: u32, call: i64, ret: i64, v: Option<u32>) -> Operation<RegisterModel> {
    Operation {
        client_id: Some(client_id),
        call_time: call,
        return_time: ret,
        op: RegisterOp::Get(v),
        metadata: None,
    }
}

pub fn put_call(client_id: u32, id: usize, v: u32) -> Event<RegisterModel> {
    Event::Call {
        client_id: Some(client_id),
        value: RegisterInput::Put(v),
        id,
        metadata: None,
    }
}

pub fn put_return(client_id: u32, id: usize) -> Event<RegisterModel> {
    Event::Return {
        client_id: Some(client_id),
        value: RegisterOutput::Put,
        id,
        metadata: None,
    }
}

pub fn get_call(client_id: u32, id: usize) -> Event<RegisterModel> {
    Event::Call {
        client_id: Some(client_id),
        value: RegisterInput::Get,
        id,
        metadata: None,
    }
}

pub fn get_return(client_id: u32, id: usize, v: Option<u32>) -> Event<RegisterModel> {
    Event::Return {
        client_id: Some(client_id),
        value: RegisterOutput::Get(v),
        id,
        metadata: None,
    }
}

#[test]
fn test_register_model() {
    let o1 = vec![
        put(0, 0, 100, 100),
        get(1, 25, 75, Some(100)),
        get(2, 30, 60, Some(0)),
    ];
    let linearizable = porcupine_rs::check_operations(o1);
    assert!(linearizable, "expected operations to be linearizable");

    let e1 = vec![
        put_call(0, 0, 100),
        get_call(1, 1),
        get_call(1, 2),
        get_return(2, 2, Some(0)),
        get_return(1, 1, Some(100)),
        put_return(0, 0),
    ];
    let linearizable = porcupine_rs::check_events(e1);
    assert!(linearizable, "expected events to be linearizable");

    let o2 = vec![
        put(0, 0, 100, 200),
        get(1, 10, 30, Some(200)),
        get(2, 40, 90, Some(0)),
    ];
    let linearizable = porcupine_rs::check_operations(o2);
    assert!(!linearizable, "expected operations to not be linearizable");

    let e2 = vec![
        put_call(0, 0, 200),
        get_call(1, 1),
        get_return(1, 1, Some(200)),
        get_call(2, 2),
        get_return(2, 2, Some(0)),
        put_return(0, 0),
    ];
    let linearizable = porcupine_rs::check_events(e2);
    assert!(!linearizable, "expected events to not be linearizable");
}

#[test]
fn test_zero_duration() {
    let o1 = vec![
        put(0, 0, 100, 100),
        get(1, 25, 75, Some(100)),
        get(2, 30, 30, Some(0)),
        get(3, 30, 30, Some(0)),
    ];
    let linearizable = porcupine_rs::check_operations(o1);
    assert!(linearizable, "expected operations to be linearizable");

    let o2 = vec![
        put(0, 0, 100, 200),
        get(1, 10, 10, Some(200)),
        get(2, 10, 10, Some(200)),
        get(3, 40, 90, Some(0)),
    ];
    let linearizable = porcupine_rs::check_operations(o2);
    assert!(!linearizable, "expected operations to not be linearizable");
}

#[test]
fn register_info_on_legal_history_is_complete() {
    let o1 = vec![
        put(0, 0, 100, 100),
        get(1, 25, 75, Some(100)),
        get(2, 30, 60, Some(0)),
    ];
    let (result, info) = porcupine_rs::check_operations_info(o1);
    assert_eq!(result, CheckResult::Legal);
    assert_eq!(info.partition_ops.len(), 1);
    assert_eq!(info.partial_linearizations.len(), 1);
    // Every recorded sequence of a legal history is a complete linearization.
    assert_eq!(info.partial_linearizations[0], vec![vec![2, 0, 1]]);
}

#[test]
fn register_events_info_illegal() {
    let e2 = vec![
        put_call(0, 0, 200),
        get_call(1, 1),
        get_return(1, 1, Some(200)),
        get_call(2, 2),
        get_return(2, 2, Some(0)),
        put_return(0, 0),
    ];
    let (result, info) = porcupine_rs::check_events_info(e2);
    assert_eq!(result, CheckResult::Illegal);
    assert_eq!(info.partition_ops.len(), 1);
    assert_eq!(info.partition_ops[0].len(), 3);
}

#[test]
fn empty_history_is_linearizable() {
    assert!(porcupine_rs::check_operations(Vec::<Operation<RegisterModel>>::new()));
    assert!(porcupine_rs::check_events(Vec::<Event<RegisterModel>>::new()));
}

#[test]
fn single_read_of_initial_value() {
    assert!(porcupine_rs::check_operations(vec![get(0, 0, 1, Some(0))]));
    assert!(!porcupine_rs::check_operations(vec![get(0, 0, 1, Some(5))]));
}
