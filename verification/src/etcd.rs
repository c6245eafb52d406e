//! A compare-and-set register, as etcd offers it to Jepsen: reads that may
//! find no value, writes, compare-and-set, and operations whose outcome is
//! unknown because they timed out.
use crate::model::{whole_history, Event, EventModel, Model, Operation};
use vstd::prelude::*;

verus! {

/// The state of a register that was never written.
pub const ETCD_UNSET: i32 = -1000000;

#[derive(Clone, Copy, Debug, PartialEq, Eq, Structural)]
pub enum EtcdOp {
    Read { exists: bool, value: i32, unknown: bool },
    Write { value: i32 },
    Cas { from: i32, to: i32, ok: bool, unknown: bool },
}

#[derive(Debug, Clone)]
pub struct EtcdModel;

#[derive(Clone, Copy, Debug, PartialEq, Eq, Structural)]
pub enum EtcdInput {
    Read,
    Write { value: i32 },
    Cas { from: i32, to: i32 },
}

#[derive(Clone, Copy, Debug, PartialEq, Eq, Structural)]
pub enum EtcdOutput {
    Read { exists: bool, value: i32, unknown: bool },
    Write,
    Cas { ok: bool, unknown: bool },
}

/// Whether the register accepts `op` in `state`, and the state after it.
///
/// A read is accepted when it found nothing in a register never written,
/// or found the register's value, or timed out.  A compare-and-set is
/// accepted when it succeeded exactly when the register held `from`, or
/// when it timed out; it sets the register to `to` when the register held
/// `from`.  A write is always accepted.
pub open spec fn etcd_step(state: i32, op: EtcdOp) -> (bool, i32) {
    match op {
        EtcdOp::Read { exists, value, unknown } => (
            (!exists && state == ETCD_UNSET) || (exists && state == value) || unknown,
            state,
        ),
        EtcdOp::Write { value } => (true, value),
        EtcdOp::Cas { from, to, ok, unknown } => (
            (from == state && ok) || (from != state && !ok) || unknown,
            if from == state {
                to
            } else {
                state
            },
        ),
    }
}

/// The input and output are of the same kind of operation.
pub open spec fn etcd_combines(input: EtcdInput, output: EtcdOutput) -> bool {
    match (input, output) {
        (EtcdInput::Read, EtcdOutput::Read { .. }) => true,
        (EtcdInput::Write { .. }, EtcdOutput::Write) => true,
        (EtcdInput::Cas { .. }, EtcdOutput::Cas { .. }) => true,
        _ => false,
    }
}

/// The operation that an input and its output describe.
pub open spec fn etcd_combine(input: EtcdInput, output: EtcdOutput) -> EtcdOp {
    match (input, output) {
        (EtcdInput::Read, EtcdOutput::Read { exists, value, unknown }) => EtcdOp::Read {
            exists,
            value,
            unknown,
        },
        (EtcdInput::Cas { from, to }, EtcdOutput::Cas { ok, unknown }) => EtcdOp::Cas {
            from,
            to,
            ok,
            unknown,
        },
        (EtcdInput::Write { value }, _) => EtcdOp::Write { value },
        _ => EtcdOp::Write { value: 0 },
    }
}

impl Model for EtcdModel {
    type State = i32;
    type Op = EtcdOp;
    type Metadata = u32;

    fn partition_operations(history: Vec<Operation<Self>>) -> (r: Vec<Vec<Operation<Self>>>) {
        whole_history(history)
    }

    open spec fn init_spec() -> i32 {
        ETCD_UNSET
    }

    open spec fn step_spec(state: i32, op: EtcdOp) -> (bool, i32) {
        etcd_step(state, op)
    }

    fn init() -> (s: i32) {
        ETCD_UNSET
    }

    fn step(state: &i32, op: &EtcdOp) -> (r: (bool, i32)) {
        match *op {
            EtcdOp::Read { exists, value, unknown } => {
                let ok = (!exists && *state == ETCD_UNSET) || (exists && *state == value) || unknown;
                (ok, *state)
            },
            EtcdOp::Write { value } => (true, value),
            EtcdOp::Cas { from, to, ok, unknown } => {
                let rok = (from == *state && ok) || (from != *state && !ok) || unknown;
                let mut result = *state;
                if from == *state {
                    result = to;
                }
                (rok, result)
            },
        }
    }

    fn describe_operation(op: &EtcdOp) -> (r: String)
        ensures
            r@.len() == 0,
    {
        String::new()
    }
}

impl EventModel for EtcdModel {
    type Input = EtcdInput;
    type Output = EtcdOutput;

    fn partition_events(history: Vec<Event<Self>>) -> (r: Vec<Vec<Event<Self>>>) {
        whole_history(history)
    }

    open spec fn combines(input: EtcdInput, output: EtcdOutput) -> bool {
        etcd_combines(input, output)
    }

    open spec fn combine_spec(input: EtcdInput, output: EtcdOutput) -> EtcdOp {
        etcd_combine(input, output)
    }

    fn combine(input: &EtcdInput, output: &EtcdOutput) -> (op: EtcdOp) {
        match (*input, *output) {
            (EtcdInput::Read, EtcdOutput::Read { exists, value, unknown }) => EtcdOp::Read {
                exists,
                value,
                unknown,
            },
            (EtcdInput::Cas { from, to }, EtcdOutput::Cas { ok, unknown }) => EtcdOp::Cas {
                from,
                to,
                ok,
                unknown,
            },
            (EtcdInput::Write { value }, _) => EtcdOp::Write { value },
            _ => EtcdOp::Write { value: 0 },
        }
    }
}

/// A read never changes the register.  A read that timed out is accepted
/// whatever the register holds; one that did not is accepted exactly when
/// it saw the register as it is: nothing, in a register never written, or
/// the value the register holds.
pub proof fn lemma_etcd_read(state: i32, exists: bool, value: i32, unknown: bool)
    ensures
        EtcdModel::step_spec(state, EtcdOp::Read { exists, value, unknown }).1 == state,
        unknown ==> EtcdModel::step_spec(state, EtcdOp::Read { exists, value, unknown }).0,
        !unknown && !exists ==> (EtcdModel::step_spec(state, EtcdOp::Read { exists, value, unknown }).0
            <==> state == ETCD_UNSET),
        !unknown && exists ==> (EtcdModel::step_spec(state, EtcdOp::Read { exists, value, unknown }).0
            <==> state == value),
{
}

/// A write is accepted whatever the register holds, and leaves its value
/// in the register.
pub proof fn lemma_etcd_write(state: i32, value: i32)
    ensures
        EtcdModel::step_spec(state, EtcdOp::Write { value }) == (true, value),
{
}

/// A compare-and-set puts `to` in the register exactly when the register
/// held `from`, and leaves it as it was otherwise.  One that timed out is
/// accepted whatever the register holds; one that did not is accepted
/// exactly when it reports success precisely when the register held
/// `from`.
pub proof fn lemma_etcd_cas(state: i32, from: i32, to: i32, ok: bool, unknown: bool)
    ensures
        EtcdModel::step_spec(state, EtcdOp::Cas { from, to, ok, unknown }).1 == if state == from {
            to
        } else {
            state
        },
        unknown ==> EtcdModel::step_spec(state, EtcdOp::Cas { from, to, ok, unknown }).0,
        !unknown ==> (EtcdModel::step_spec(state, EtcdOp::Cas { from, to, ok, unknown }).0 <==> (ok
            <==> state == from)),
{
}

/// The register starts out never written: a read that saw nothing and did
/// not time out is accepted from the initial state.
pub proof fn lemma_etcd_init()
    ensures
        EtcdModel::init_spec() == ETCD_UNSET,
        EtcdModel::step_spec(EtcdModel::init_spec(), EtcdOp::Read { exists: false, value: 0, unknown: false }).0,
{
}

/// Combining keeps what each side reports: a read takes whether it found
/// a value, the value and whether it timed out from its output; a write
/// takes its value from its input; a compare-and-set takes `from` and `to`
/// from its input and its success and timeout from its output.
pub proof fn lemma_etcd_combine(input: EtcdInput, output: EtcdOutput)
    requires
        EtcdModel::combines(input, output),
    ensures
        input is Read ==> (output matches EtcdOutput::Read { exists, value, unknown }
            && EtcdModel::combine_spec(input, output) == (EtcdOp::Read { exists, value, unknown })),
        input matches EtcdInput::Write { value } ==> (output is Write && EtcdModel::combine_spec(input, output)
            == (EtcdOp::Write { value })),
        input matches EtcdInput::Cas { from, to } ==> (output matches EtcdOutput::Cas { ok, unknown }
            && EtcdModel::combine_spec(input, output) == (EtcdOp::Cas { from, to, ok, unknown })),
{
}

} // verus!
