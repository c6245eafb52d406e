use porcupine_rs::linearizer::Linearizer;
use porcupine_rs::model::whole_history;
use porcupine_rs::partition::Partition;
use porcupine_rs::{Model, Operation};

#[derive(Clone, Debug)]
enum RegOp {
    Put(u32),
    Get(u32),
}

#[derive(Clone, Debug)]
struct Register;

impl Model for Register {
    type State = u32;
    type Op = RegOp;
    type Metadata = ();

    fn partition_operations(history: Vec<Operation<Self>>) -> Vec<Vec<Operation<Self>>> {
        whole_history(history)
    }

    fn init() -> u32 {
        0
    }

    fn step(state: &u32, op: &RegOp) -> (bool, u32) {
        match op {
            RegOp::Put(v) => (true, *v),
            RegOp::Get(v) => (*v == *state, *state),
        }
    }
}

fn op(call: i64, ret: i64, op: RegOp) -> Operation<Register> {
    Operation { client_id: None, call_time: call, return_time: ret, op, metadata: None }
}

/// A put of 1, then a read of 1: the history is, in order, the put's call
/// and return, then the read's call and return.
fn put_then_get() -> Partition<Register> {
    Partition::from_operations(vec![op(0, 10, RegOp::Put(1)), op(20, 30, RegOp::Get(1))])
}

#[test]
fn backtrack_undoes_lift() {
    let p = put_then_get();
    let mut lin = Linearizer::new(&p, false);
    assert_eq!(lin.front(), 0);
    let next = lin.try_linearize(0).expect("the put is accepted");
    assert_eq!(next, 1);
    lin.lift(0, next);
    // The put's call and return left the active entries.
    assert_eq!(lin.front(), 2);
    assert_eq!(lin.backtrack(), Some(0));
    assert_eq!(lin.front(), 0);
    assert_eq!(lin.next_of(0), 1);
    assert_eq!(lin.backtrack(), None);
}

#[test]
fn try_linearize_refused_step_is_none() {
    let p = put_then_get();
    let mut lin = Linearizer::new(&p, false);
    // The read of 1 is refused from the initial state 0.
    assert_eq!(lin.try_linearize(2), None);
}

#[test]
fn try_linearize_twice_hits_the_cache() {
    let p = put_then_get();
    let mut lin = Linearizer::new(&p, false);
    assert_eq!(lin.try_linearize(0), Some(1));
    // The same pair of lifted set and state was recorded by the first try.
    assert_eq!(lin.try_linearize(0), None);
}

#[test]
fn lift_then_read_is_accepted() {
    let p = put_then_get();
    let mut lin = Linearizer::new(&p, false);
    let next = lin.try_linearize(0).unwrap();
    lin.lift(0, next);
    assert_eq!(lin.try_linearize(2), Some(1));
    lin.lift(2, 1);
    assert_eq!(lin.backtrack(), Some(2));
    assert_eq!(lin.backtrack(), Some(0));
    assert_eq!(lin.backtrack(), None);
}
