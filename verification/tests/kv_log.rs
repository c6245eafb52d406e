use porcupine_rs::jepsen::kv_events;
use porcupine_rs::kv::{combine_kv, KvInput, KvOp, KvOutput};
use porcupine_rs::log_format::read_kv_log;
use porcupine_rs::model::whole_history;
use porcupine_rs::{Event, EventModel, Model, Operation};
use std::collections::{BTreeMap, HashMap};

// ---------------------------------------------------------------------------
// A key-value model that checks each key on its own
// ---------------------------------------------------------------------------

#[derive(Clone, Debug)]
pub struct KvModel;

impl Model for KvModel {
    type State = String;
    type Op = KvOp;
    type Metadata = ();

    fn init() -> String {
        String::new()
    }

    fn step(state: &String, op: &KvOp) -> (bool, String) {
        match op {
            KvOp::Read { value, .. } => (*value == *state, state.clone()),
            KvOp::Write { value, .. } => (true, value.clone()),
            KvOp::Append { value, .. } => (true, state.clone() + value),
        }
    }

    fn partition_operations(history: Vec<Operation<Self>>) -> Vec<Vec<Operation<Self>>> {
        let mut by_key: HashMap<String, Vec<Operation<Self>>> = HashMap::new();
        for op in history {
            by_key.entry(op.op.key().to_owned()).or_default().push(op);
        }
        by_key.into_values().collect()
    }
}

impl EventModel for KvModel {
    type Input = KvInput;
    type Output = KvOutput;

    fn combine(input: &KvInput, output: &KvOutput) -> KvOp {
        combine_kv(input, output)
    }

    fn partition_events(history: Vec<Event<Self>>) -> Vec<Vec<Event<Self>>> {
        let mut by_key: HashMap<String, Vec<Event<Self>>> = HashMap::new();
        let mut pending: HashMap<usize, String> = HashMap::new();
        for e in history {
            let key = match &e {
                Event::Call { value, id, .. } => {
                    let key = value.key();
                    pending.insert(*id, key.clone());
                    key
                }
                Event::Return { id, .. } => pending
                    .get(id)
                    .unwrap_or_else(|| panic!("return id={id} has no matching call"))
                    .clone(),
            };
            by_key.entry(key).or_default().push(e);
        }
        by_key.into_values().collect()
    }
}

// ---------------------------------------------------------------------------
// A key-value model over all keys at once
// ---------------------------------------------------------------------------

#[derive(Clone, Debug)]
pub struct KvNoPartitionModel;

impl Model for KvNoPartitionModel {
    type State = BTreeMap<String, String>;
    type Op = KvOp;
    type Metadata = ();

    fn init() -> BTreeMap<String, String> {
        BTreeMap::new()
    }

    fn step(state: &BTreeMap<String, String>, op: &KvOp) -> (bool, BTreeMap<String, String>) {
        match op {
            KvOp::Read { key, value } => {
                let ok = match state.get(key) {
                    Some(v) => v == value,
                    None => value.is_empty(),
                };
                (ok, state.clone())
            }
            KvOp::Write { key, value } => {
                let mut next = state.clone();
                next.insert(key.clone(), value.clone());
                (true, next)
            }
            KvOp::Append { key, value } => {
                let mut next = state.clone();
                next.entry(key.clone())
                    .and_modify(|old| old.push_str(value))
                    .or_insert_with(|| value.clone());
                (true, next)
            }
        }
    }

    fn partition_operations(history: Vec<Operation<Self>>) -> Vec<Vec<Operation<Self>>> {
        whole_history(history)
    }
}

impl EventModel for KvNoPartitionModel {
    type Input = KvInput;
    type Output = KvOutput;

    fn combine(input: &KvInput, output: &KvOutput) -> KvOp {
        combine_kv(input, output)
    }

    fn partition_events(history: Vec<Event<Self>>) -> Vec<Vec<Event<Self>>> {
        whole_history(history)
    }
}

// ---------------------------------------------------------------------------
// Logs in the Jepsen key-value format
// ---------------------------------------------------------------------------

fn events_of<M>(log: &[&str]) -> Vec<Event<M>>
where
    M: EventModel<Input = KvInput, Output = KvOutput>,
{
    let lines: Vec<String> = log.iter().map(|l| l.to_string()).collect();
    kv_events(read_kv_log(&lines).expect("a well-formed log"))
}

/// Two keys, each read back after its write; a read of `y` starts before
/// the append to it and sees the empty value.
const OK_LOG: &[&str] = &[
    r#"{:process 0, :type :invoke, :f :put, :key "x", :value "a"}"#,
    r#"{:process 1, :type :invoke, :f :get, :key "y", :value nil}"#,
    r#"{:process 0, :type :ok, :f :put, :key "x", :value "a"}"#,
    r#"{:process 2, :type :invoke, :f :append, :key "y", :value "b"}"#,
    r#"{:process 1, :type :ok, :f :get, :key "y", :value ""}"#,
    r#"{:process 2, :type :ok, :f :append, :key "y", :value "b"}"#,
    r#"{:process 0, :type :invoke, :f :get, :key "x", :value nil}"#,
    r#"{:process 0, :type :ok, :f :get, :key "x", :value "a"}"#,
    r#"{:process 1, :type :invoke, :f :append, :key "y", :value "c"}"#,
    r#"{:process 1, :type :ok, :f :append, :key "y", :value "c"}"#,
    r#"{:process 2, :type :invoke, :f :get, :key "y", :value nil}"#,
    r#"{:process 2, :type :ok, :f :get, :key "y", :value "bc"}"#,
];

/// The read of `x` returns a value that was never written, after the
/// write of `a` has completed.
const BAD_LOG: &[&str] = &[
    r#"{:process 0, :type :invoke, :f :put, :key "x", :value "a"}"#,
    r#"{:process 0, :type :ok, :f :put, :key "x", :value "a"}"#,
    r#"{:process 3, :type :invoke, :f :append, :key "y", :value "q"}"#,
    r#"{:process 1, :type :invoke, :f :get, :key "x", :value nil}"#,
    r#"{:process 1, :type :ok, :f :get, :key "x", :value "b"}"#,
    r#"{:process 3, :type :ok, :f :append, :key "y", :value "q"}"#,
];

#[test]
fn kv_log_ok_by_key() {
    let events: Vec<Event<KvModel>> = events_of(OK_LOG);
    assert_eq!(events.len(), 12);
    assert!(porcupine_rs::check_events(events));
}

#[test]
fn kv_log_bad_by_key() {
    let events: Vec<Event<KvModel>> = events_of(BAD_LOG);
    assert!(!porcupine_rs::check_events(events));
}

#[test]
fn kv_log_ok_without_partitions() {
    let events: Vec<Event<KvNoPartitionModel>> = events_of(OK_LOG);
    assert!(porcupine_rs::check_events(events));
}

#[test]
fn kv_log_bad_without_partitions() {
    let events: Vec<Event<KvNoPartitionModel>> = events_of(BAD_LOG);
    assert!(!porcupine_rs::check_events(events));
}

#[test]
fn kv_log_unanswered_calls_are_answered_at_the_end() {
    let log: &[&str] = &[
        r#"{:process 4, :type :invoke, :f :put, :key "z", :value "w"}"#,
        r#"{:process 5, :type :invoke, :f :get, :key "z", :value nil}"#,
    ];
    let events: Vec<Event<KvModel>> = events_of(log);
    assert_eq!(events.len(), 4);
    // A read that never returned is answered with the empty value, which
    // it may have read before the write.
    assert!(porcupine_rs::check_events(events));
    let events: Vec<Event<KvNoPartitionModel>> = events_of(log);
    assert!(porcupine_rs::check_events(events));
}

// ---------------------------------------------------------------------------
// Generated logs of several clients
// ---------------------------------------------------------------------------

/// A log in which `clients` clients take turns for `rounds` rounds, each
/// running one operation at a time on three keys against a real store:
/// the store's answers are those of one sequential run.  When `bad`, the
/// last read answers a value that was never written.
fn generated_log(clients: usize, rounds: usize, bad: bool) -> Vec<String> {
    let mut store: HashMap<String, String> = HashMap::new();
    let mut lines = Vec::new();
    let mut last_read = None;
    for r in 0..rounds {
        for c in 0..clients {
            let key = format!("k{}", (c + r) % 3);
            match (c + 2 * r) % 3 {
                0 => {
                    let v = format!("c{c}r{r}");
                    lines.push(format!(
                        r#"{{:process {c}, :type :invoke, :f :put, :key "{key}", :value "{v}"}}"#
                    ));
                    store.insert(key.clone(), v.clone());
                    lines.push(format!(
                        r#"{{:process {c}, :type :ok, :f :put, :key "{key}", :value "{v}"}}"#
                    ));
                }
                1 => {
                    let v = format!("a{c}");
                    lines.push(format!(
                        r#"{{:process {c}, :type :invoke, :f :append, :key "{key}", :value "{v}"}}"#
                    ));
                    store.entry(key.clone()).or_default().push_str(&v);
                    lines.push(format!(
                        r#"{{:process {c}, :type :ok, :f :append, :key "{key}", :value "{v}"}}"#
                    ));
                }
                _ => {
                    let v = store.get(&key).cloned().unwrap_or_default();
                    lines.push(format!(
                        r#"{{:process {c}, :type :invoke, :f :get, :key "{key}", :value nil}}"#
                    ));
                    last_read = Some((lines.len(), c, key.clone()));
                    lines.push(format!(
                        r#"{{:process {c}, :type :ok, :f :get, :key "{key}", :value "{v}"}}"#
                    ));
                }
            }
        }
    }
    if bad {
        let (at, c, key) = last_read.expect("the log has a read");
        lines[at] = format!(r#"{{:process {c}, :type :ok, :f :get, :key "{key}", :value "never"}}"#);
    }
    lines
}

fn events_of_lines<M>(lines: &[String]) -> Vec<Event<M>>
where
    M: EventModel<Input = KvInput, Output = KvOutput>,
{
    kv_events(read_kv_log(&lines.to_vec()).expect("a well-formed log"))
}

fn check_kv(clients: usize, bad: bool) -> bool {
    porcupine_rs::check_events(events_of_lines::<KvModel>(&generated_log(clients, 6, bad)))
}

fn check_kv_no_part(clients: usize, bad: bool) -> bool {
    porcupine_rs::check_events(events_of_lines::<KvNoPartitionModel>(&generated_log(clients, 6, bad)))
}

#[test]
fn test_kv_1_client_ok() {
    assert!(check_kv(1, false));
}

#[test]
fn test_kv_1_client_bad() {
    assert!(!check_kv(1, true));
}

#[test]
fn test_kv_10_clients_ok() {
    assert!(check_kv(10, false));
}

#[test]
fn test_kv_10_clients_bad() {
    assert!(!check_kv(10, true));
}

#[test]
fn test_kv_50_clients_ok() {
    assert!(check_kv(50, false));
}

#[test]
fn test_kv_50_clients_bad() {
    assert!(!check_kv(50, true));
}

#[test]
fn test_kv_no_partition_1_client_ok() {
    assert!(check_kv_no_part(1, false));
}

#[test]
fn test_kv_no_partition_1_client_bad() {
    assert!(!check_kv_no_part(1, true));
}

#[test]
fn test_kv_no_partition_10_clients_ok() {
    assert!(check_kv_no_part(10, false));
}

#[test]
fn test_kv_no_partition_10_clients_bad() {
    assert!(!check_kv_no_part(10, true));
}
