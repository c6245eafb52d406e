//! The operations of a key-value store whose values are strings: reads,
//! writes and appends, each on one key.
use vstd::prelude::*;

verus! {

/// What a client asked the store to do.
#[derive(Clone, Debug)]
pub enum KvInput {
    Read { key: String },
    Write { key: String, value: String },
    Append { key: String, value: String },
}

/// What the store answered.
#[derive(Clone, Debug)]
pub enum KvOutput {
    Read { value: String },
    Write,
    Append,
}

/// One completed operation: what was asked together with what was
/// answered.
#[derive(Clone, Debug)]
pub enum KvOp {
    Read { key: String, value: String },
    Write { key: String, value: String },
    Append { key: String, value: String },
}

/// The key that an input is about.
pub open spec fn input_key(input: KvInput) -> String {
    match input {
        KvInput::Read { key } => key,
        KvInput::Write { key, .. } => key,
        KvInput::Append { key, .. } => key,
    }
}

/// The key that an operation is about.
pub open spec fn op_key(op: KvOp) -> String {
    match op {
        KvOp::Read { key, .. } => key,
        KvOp::Write { key, .. } => key,
        KvOp::Append { key, .. } => key,
    }
}

impl KvInput {
    /// The key that this input is about.
    pub fn key(&self) -> (k: String)
        ensures
            k == input_key(*self),
    {
        match self {
            KvInput::Read { key } => key.clone(),
            KvInput::Write { key, .. } => key.clone(),
            KvInput::Append { key, .. } => key.clone(),
        }
    }
}

impl KvOp {
    /// The key that this operation is about.
    pub fn key(&self) -> (k: &str)
        ensures
            k@ == op_key(*self)@,
    {
        match self {
            KvOp::Read { key, .. } => key.as_str(),
            KvOp::Write { key, .. } => key.as_str(),
            KvOp::Append { key, .. } => key.as_str(),
        }
    }
}

/// The input and the output are of the same kind of operation.
pub open spec fn kv_combines(input: KvInput, output: KvOutput) -> bool {
    match (input, output) {
        (KvInput::Read { .. }, KvOutput::Read { .. }) => true,
        (KvInput::Write { .. }, KvOutput::Write) => true,
        (KvInput::Append { .. }, KvOutput::Append) => true,
        _ => false,
    }
}

/// The operation that an input and its output describe: a read with the
/// value it returned, or the write or append that was asked.
pub open spec fn kv_combine(input: KvInput, output: KvOutput) -> KvOp {
    match (input, output) {
        (KvInput::Read { key }, KvOutput::Read { value }) => KvOp::Read { key, value },
        (KvInput::Append { key, value }, _) => KvOp::Append { key, value },
        (KvInput::Write { key, value }, _) => KvOp::Write { key, value },
        (KvInput::Read { key }, _) => KvOp::Read { key, value: key },
    }
}

/// Combine an input with its output into the operation they describe.
pub fn combine_kv(input: &KvInput, output: &KvOutput) -> (op: KvOp)
    requires
        kv_combines(*input, *output),
    ensures
        op == kv_combine(*input, *output),
{
    match (input, output) {
        (KvInput::Read { key }, KvOutput::Read { value }) => KvOp::Read {
            key: key.clone(),
            value: value.clone(),
        },
        (KvInput::Append { key, value }, _) => KvOp::Append { key: key.clone(), value: value.clone() },
        (KvInput::Write { key, value }, _) => KvOp::Write { key: key.clone(), value: value.clone() },
        (KvInput::Read { key }, _) => KvOp::Read { key: key.clone(), value: key.clone() },
    }
}

/// Combining keeps the input's key and kind: a read takes the value it
/// returned from its output, a write or an append the value that was
/// asked from its input.
pub proof fn lemma_kv_combine(input: KvInput, output: KvOutput)
    requires
        kv_combines(input, output),
    ensures
        op_key(kv_combine(input, output)) == input_key(input),
        input matches KvInput::Read { key } ==> (output matches KvOutput::Read { value } && kv_combine(
            input,
            output,
        ) == (KvOp::Read { key, value })),
        input matches KvInput::Write { key, value } ==> kv_combine(input, output) == (KvOp::Write { key, value }),
        input matches KvInput::Append { key, value } ==> kv_combine(input, output) == (KvOp::Append {
            key,
            value,
        }),
{
}

} // verus!
