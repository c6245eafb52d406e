use porcupine_rs::model::whole_history;
use porcupine_rs::etcd::EtcdModel;
use porcupine_rs::jepsen::etcd_events;
use porcupine_rs::log_format::read_etcd_log;
use porcupine_rs::kv::KvOp;
use porcupine_rs::visualization::{
    compute_visualization_data, is_drawable, HistoryElement, LinearizationStep, PartitionVisualizationData,
};
use porcupine_rs::{Annotation, CheckResult, Event, EventModel, LinearizationInfo, Model, Operation};
use std::collections::{BTreeMap, HashMap};

// ---------------------------------------------------------------------------
// A key-value model that checks each key on its own
// ---------------------------------------------------------------------------

#[derive(Clone, Debug)]
pub struct KvModel;

impl Model for KvModel {
    type State = String;
    type Op = KvOp;
    type Metadata = ();

    fn init() -> String {
        String::new()
    }

    fn step(state: &String, op: &KvOp) -> (bool, String) {
        match op {
            KvOp::Read { value, .. } => (*value == *state, state.clone()),
            KvOp::Write { value, .. } => (true, value.clone()),
            KvOp::Append { value, .. } => (true, state.clone() + value),
        }
    }

    fn partition_operations(history: Vec<Operation<Self>>) -> Vec<Vec<Operation<Self>>> {
        let mut by_key: HashMap<String, Vec<Operation<Self>>> = HashMap::new();
        for op in history {
            by_key.entry(op.op.key().to_owned()).or_default().push(op);
        }
        by_key.into_values().collect()
    }

    fn describe_operation(op: &KvOp) -> String {
        match op {
            KvOp::Read { key, value } => format!("get('{key}') -> '{value}'"),
            KvOp::Write { key, value } => format!("put('{key}', '{value}')"),
            KvOp::Append { key, value } => format!("append('{key}', '{value}')"),
        }
    }

    fn describe_state(state: &String) -> String {
        state.clone()
    }
}

// ---------------------------------------------------------------------------
// A register model
// ---------------------------------------------------------------------------

#[derive(Clone, Debug)]
pub enum RegisterOp {
    Get(Option<u32>),
    Put(u32),
}

#[derive(Debug, Clone)]
pub struct RegisterModel;

impl Model for RegisterModel {
    fn partition_operations(history: Vec<Operation<Self>>) -> Vec<Vec<Operation<Self>>> {
        whole_history(history)
    }

    type State = u32;
    type Op = RegisterOp;
    type Metadata = ();

    fn init() -> u32 {
        0
    }

    fn step(state: &u32, op: &RegisterOp) -> (bool, u32) {
        match op {
            RegisterOp::Get(value) => (*value == Some(*state), *state),
            RegisterOp::Put(value) => (true, *value),
        }
    }

    fn describe_operation(op: &RegisterOp) -> String {
        match op {
            RegisterOp::Get(value) => {
                let v = value.unwrap_or_default();
                format!("get() -> '{v}'").to_string()
            }
            RegisterOp::Put(value) => format!("put('{value}')").to_string(),
        }
    }
}

#[derive(Clone, Debug)]
pub enum RegisterInput {
    Get,
    Put(u32),
}

#[derive(Clone, Debug)]
pub enum RegisterOutput {
    Get(Option<u32>),
    Put,
}

impl EventModel for RegisterModel {
    fn partition_events(history: Vec<Event<Self>>) -> Vec<Vec<Event<Self>>> {
        whole_history(history)
    }

    type Input = RegisterInput;
    type Output = RegisterOutput;

    fn combine(input: &RegisterInput, output: &RegisterOutput) -> RegisterOp {
        match (input, output) {
            (RegisterInput::Get, RegisterOutput::Get(value)) => RegisterOp::Get(*value),
            (RegisterInput::Put(value), RegisterOutput::Put) => RegisterOp::Put(*value),
            _ => panic!("unexpected input/output combination found"),
        }
    }
}

fn put_call(client_id: u32, id: usize, v: u32) -> Event<RegisterModel> {
    Event::Call {
        client_id: Some(client_id),
        value: RegisterInput::Put(v),
        id,
        metadata: None,
    }
}

fn put_return(client_id: u32, id: usize) -> Event<RegisterModel> {
    Event::Return {
        client_id: Some(client_id),
        value: RegisterOutput::Put,
        id,
        metadata: None,
    }
}

fn get_call(client_id: u32, id: usize) -> Event<RegisterModel> {
    Event::Call {
        client_id: Some(client_id),
        value: RegisterInput::Get,
        id,
        metadata: None,
    }
}

fn get_return(client_id: u32, id: usize, v: Option<u32>) -> Event<RegisterModel> {
    Event::Return {
        client_id: Some(client_id),
        value: RegisterOutput::Get(v),
        id,
        metadata: None,
    }
}

// ---------------------------------------------------------------------------
// Helpers
// ---------------------------------------------------------------------------

pub fn read(client_id: u32, call: i64, ret: i64, key: &str, value: &str) -> Operation<KvModel> {
    Operation {
        client_id: Some(client_id),
        call_time: call,
        return_time: ret,
        op: KvOp::Read {
            key: key.to_string(),
            value: value.to_string(),
        },
        metadata: None,
    }
}

pub fn write(client_id: u32, call: i64, ret: i64, key: &str, value: &str) -> Operation<KvModel> {
    Operation {
        client_id: Some(client_id),
        call_time: call,
        return_time: ret,
        op: KvOp::Write {
            key: key.to_string(),
            value: value.to_string(),
        },
        metadata: None,
    }
}

fn history(
    client_id: u32,
    start: i64,
    original_start: &str,
    end: i64,
    original_end: &str,
    description: &str,
) -> HistoryElement {
    HistoryElement {
        client_id,
        start,
        original_start: original_start.to_string(),
        end,
        original_end: original_end.to_string(),
        description: description.to_string(),
        metadata: "".to_string(),
        annotation: false,
    }
}

fn part_lin(index: usize, state_description: &str) -> LinearizationStep {
    LinearizationStep {
        index,
        state_description: state_description.to_string(),
    }
}

fn annotation1(
    client_id: u32,
    start: i64,
    end: Option<i64>,
    description: &str,
    background_color: &str,
) -> Annotation {
    Annotation {
        client_id: Some(client_id),
        tag: Some("".to_string()),
        start,
        end,
        description: description.to_string(),
        details: "".to_string(),
        text_color: "".to_string(),
        background_color: background_color.to_string(),
    }
}

fn annotation2(
    tag: &str,
    start: i64,
    end: Option<i64>,
    description: &str,
    details: &str,
    background_color: &str,
) -> Annotation {
    Annotation {
        client_id: Some(0),
        tag: Some(tag.to_string()),
        start,
        end,
        description: description.to_string(),
        details: details.to_string(),
        text_color: "".to_string(),
        background_color: background_color.to_string(),
    }
}

fn normalize_partition_data(
    data: Vec<PartitionVisualizationData>,
) -> Vec<PartitionVisualizationData> {
    let mut partitions: Vec<_> = data.iter().map(normalize_partition).collect();
    partitions.sort_by(partition_cmp);
    partitions
}

fn normalize_partition(p: &PartitionVisualizationData) -> PartitionVisualizationData {
    let mut history = p.history.clone();
    let mut partial_linearizations = p.partial_linearizations.clone();

    // Sort nested vecs
    history.sort_by(history_cmp);

    for steps in &mut partial_linearizations {
        steps.sort_by(linearization_step_cmp);
    }

    // Sort outer vec
    partial_linearizations.sort_by(|a, b| {
        let a_key: Vec<_> = a.iter().map(|s| s.index).collect();
        let b_key: Vec<_> = b.iter().map(|s| s.index).collect();
        a_key.cmp(&b_key)
    });

    PartitionVisualizationData {
        history,
        partial_linearizations,
        largest: p.largest.clone(),
    }
}

fn history_cmp(a: &HistoryElement, b: &HistoryElement) -> std::cmp::Ordering {
    (
        a.client_id,
        a.start,
        a.end,
        &a.description,
        &a.metadata,
        a.annotation,
    )
        .cmp(&(
            b.client_id,
            b.start,
            b.end,
            &b.description,
            &b.metadata,
            b.annotation,
        ))
}

fn linearization_step_cmp(a: &LinearizationStep, b: &LinearizationStep) -> std::cmp::Ordering {
    (a.index, &a.state_description).cmp(&(b.index, &b.state_description))
}

fn partition_cmp(
    a: &PartitionVisualizationData,
    b: &PartitionVisualizationData,
) -> std::cmp::Ordering {
    (&a.history, &a.partial_linearizations, &a.largest).cmp(&(
        &b.history,
        &b.partial_linearizations,
        &b.largest,
    ))
}

// ---------------------------------------------------------------------------
// Tests
// ---------------------------------------------------------------------------

#[test]
fn test_visualization_multiple_lengths() {
    let o1 = vec![
        read(0, 0, 100, "x", "w"),
        write(1, 5, 10, "x", "y"),
        write(2, 0, 10, "x", "z"),
        read(1, 20, 30, "x", "y"),
        write(1, 35, 45, "x", "w"),
        read(5, 25, 35, "x", "z"),
        read(3, 30, 40, "x", "y"),
        read(4, 50, 90, "y", "a"),
        write(2, 55, 85, "y", "a"),
    ];
    let (result, info) = porcupine_rs::check_operations_info(o1);
    assert_eq!(
        result,
        CheckResult::Illegal,
        "expected events to not be linearizable"
    );

    let data = compute_visualization_data(&info);
    let mut largest1 = BTreeMap::new();
    largest1.insert(0, 0);
    largest1.insert(1, 0);
    largest1.insert(2, 0);
    largest1.insert(3, 0);
    largest1.insert(4, 0);
    largest1.insert(5, 1);
    largest1.insert(6, 0);
    let mut largest2 = BTreeMap::new();
    largest2.insert(0, 0);
    largest2.insert(1, 0);
    let expected = vec![
        PartitionVisualizationData {
            history: vec![
                history(0, 0, "0", 1300, "100", "get('x') -> 'w'"),
                history(1, 100, "5", 200, "10", "put('x', 'y')"),
                history(2, 0, "0", 200, "10", "put('x', 'z')"),
                history(1, 300, "20", 500, "30", "get('x') -> 'y'"),
                history(1, 600, "35", 800, "45", "put('x', 'w')"),
                history(5, 400, "25", 600, "35", "get('x') -> 'z'"),
                history(3, 500, "30", 700, "40", "get('x') -> 'y'"),
            ],
            partial_linearizations: vec![
                vec![
                    part_lin(2, "z"),
                    part_lin(1, "y"),
                    part_lin(3, "y"),
                    part_lin(6, "y"),
                    part_lin(4, "w"),
                    part_lin(0, "w"),
                ],
                vec![part_lin(1, "y"), part_lin(2, "z"), part_lin(5, "z")],
            ],
            largest: largest1,
        },
        PartitionVisualizationData {
            history: vec![
                history(4, 900, "50", 1200, "90", "get('y') -> 'a'"),
                history(2, 1000, "55", 1100, "85", "put('y', 'a')"),
            ],
            partial_linearizations: vec![vec![part_lin(1, "a"), part_lin(0, "a")]],
            largest: largest2,
        },
    ];

    assert_eq!(
        normalize_partition_data(data.partitions),
        normalize_partition_data(expected),
        "Expected partition data to be equal"
    );
}

#[test]
fn test_register_model_readme() {
    let e1 = vec![
        put_call(0, 0, 100),
        get_call(1, 1),
        get_call(1, 2),
        get_return(2, 2, Some(0)),
        get_return(1, 1, Some(100)),
        put_return(0, 0),
    ];
    let (result, info) = porcupine_rs::check_events_info(e1);
    assert_eq!(
        result,
        CheckResult::Legal,
        "expected events to be linearizable"
    );
    let data = compute_visualization_data(&info);
    assert_eq!(data.partitions.len(), 1);

    let e2 = vec![
        put_call(0, 0, 200),
        get_call(1, 1),
        get_return(1, 1, Some(200)),
        get_call(2, 2),
        get_return(2, 2, Some(0)),
        put_return(0, 0),
    ];
    let (result, info) = porcupine_rs::check_events_info(e2);
    assert_eq!(
        result,
        CheckResult::Illegal,
        "expected events to not be linearizable"
    );
    let data = compute_visualization_data(&info);
    assert_eq!(data.partitions.len(), 1);
}

#[test]
fn test_visualization_annotations() {
    let o1 = vec![
        read(0, 0, 100, "x", "w"),
        write(1, 5, 10, "x", "y"),
        write(2, 0, 10, "x", "z"),
        read(1, 20, 30, "x", "y"),
        write(1, 35, 45, "x", "w"),
        read(5, 25, 35, "x", "z"),
        read(3, 30, 40, "x", "y"),
        read(4, 50, 90, "y", "a"),
        write(2, 55, 85, "y", "a"),
    ];
    let (result, mut info) = porcupine_rs::check_operations_info(o1);
    let annotations = vec![
        // let's say that there was a "failed get" by client 4 early on
        annotation1(4, 10, Some(31), "get('y') timeout", "#ff9191"),
        // and a failed get by client 5 later
        annotation1(5, 80, None, "get('x') timeout", "#ff9191"),
        // and some tagged annotations
        annotation2(
            "Server 1",
            30,
            None,
            "leader",
            "became leader in term 3 with 2 votes",
            "",
        ),
        annotation2(
            "Server 3",
            10,
            None,
            "duplicate",
            "saw duplicate operation put('x', 'y')",
            "",
        ),
        annotation2("Server 2", 80, None, "restart", "", ""),
        annotation2(
            "Server 3",
            0,
            None,
            "leader",
            "became leader in term 1 with 3 votes",
            "",
        ),
        // and some "test framework" annotations
        annotation2(
            "Test Framework",
            20,
            Some(35),
            "partition [3] [1 2]",
            "",
            "#efaefc",
        ),
        annotation2(
            "Test Framework",
            40,
            Some(100),
            "partition [2] [1 3]",
            "",
            "#efaefc",
        ),
    ];
    info.add_annotations(annotations);
    assert_eq!(
        result,
        CheckResult::Illegal,
        "expected events to not be linearizable"
    );
    let data = compute_visualization_data(&info);
    assert_eq!(data.annotations.len(), 8);
    // 31 is a time stamp of its own, between 30 and 35.
    assert_eq!(data.annotations[0].start, 200);
    assert_eq!(data.annotations[0].end, 600);
    // Without an end, an annotation ends where it starts.
    assert_eq!(data.annotations[1].start, data.annotations[1].end);
}

#[test]
fn test_visualize_point_in_time_annotations_end() {
    let o1 = vec![read(0, 0, 100, "x", "w"), write(1, 50, 60, "x", "y")];
    let (result, mut info) = porcupine_rs::check_operations_info(o1);
    assert_eq!(
        result,
        CheckResult::Illegal,
        "expected events to not be linearizable"
    );
    let annotations = vec![
        annotation2("Server 1", 30, None, "leader change", "became leader", ""),
        annotation2("Server 2", 50, None, "heartbeat", "", ""),
        // point-in-time annotation at the end
        annotation2("Server 1", 100, None, "shutdown", "", ""),
        annotation2(
            "Test Framework",
            20,
            Some(40),
            "network stable",
            "",
            "#efaefc",
        ),
    ];
    info.add_annotations(annotations);
    let data = compute_visualization_data(&info);
    // Time stamps 0, 20, 30, 40, 50, 60, 100.
    assert_eq!(data.annotations[2].start, 600);
    assert_eq!(data.annotations[2].end, 600);
    assert_eq!(data.annotations[3].start, 100);
    assert_eq!(data.annotations[3].end, 300);
}

#[test]
fn test_visualize_matching_start_end() {
    let o1 = vec![read(0, 0, 50, "x", "w"), write(1, 50, 80, "x", "y")];
    let (result, mut info) = porcupine_rs::check_operations_info(o1);
    assert_eq!(
        result,
        CheckResult::Illegal,
        "expected events to not be linearizable"
    );
    let annotations = vec![
        annotation2("Test Framework", 0, Some(20), "partition", "", ""),
        annotation2("Test Framework", 20, Some(20), "point in time 1", "", ""),
        annotation2("Test Framework", 20, Some(40), "network stable", "", ""),
    ];
    info.add_annotations(annotations);
    let data = compute_visualization_data(&info);
    assert_eq!(data.annotations[1].start, data.annotations[1].end);
}

#[test]
fn test_visualize_annotations_no_events() {
    let mut info = LinearizationInfo::<KvModel>::empty();
    let annotations = vec![
        annotation2(
            "$ Test Info",
            1739938076171778000,
            Some(1739938076171778000),
            "TestPersist33C (3 servers)",
            "",
            "",
        ),
        annotation2(
            "$ Checker",
            1739938076171786000,
            Some(1739938086186709000),
            "agreement of 101 failed",
            "",
            "",
        ),
        annotation2(
            "$ Test Info",
            1739938086187103000,
            Some(1739938086187104000),
            "test failed",
            "",
            "",
        ),
    ];
    info.add_annotations(annotations);
    let data = compute_visualization_data(&info);
    assert!(data.partitions.is_empty());
    let starts: Vec<i64> = data.annotations.iter().map(|a| a.start).collect();
    let ends: Vec<i64> = data.annotations.iter().map(|a| a.end).collect();
    assert_eq!(starts, vec![0, 100, 300]);
    assert_eq!(ends, vec![0, 200, 400]);
}

#[test]
fn add_annotations_clamps_end_before_start() {
    let mut info = LinearizationInfo::<KvModel>::empty();
    info.add_annotations(vec![
        annotation2("a", 50, Some(10), "backwards", "", ""),
        annotation2("b", 5, None, "point", "", ""),
        annotation2("c", 7, Some(9), "forwards", "", ""),
    ]);
    assert_eq!(info.annotations[0].end, Some(50));
    assert_eq!(info.annotations[1].end, Some(5));
    assert_eq!(info.annotations[2].end, Some(9));
}

#[test]
fn history_elements_render_times_in_decimal() {
    let o1 = vec![read(7, -12, 3, "k", ""), write(8, -20, 1000, "k", "v")];
    let (_result, info) = porcupine_rs::check_operations_info(o1);
    let data = compute_visualization_data(&info);
    assert_eq!(data.partitions.len(), 1);
    let h = &data.partitions[0].history;
    assert_eq!(h[0].original_start, "-12");
    assert_eq!(h[0].original_end, "3");
    assert_eq!(h[1].original_start, "-20");
    assert_eq!(h[1].original_end, "1000");
    // Time stamps -20, -12, 3, 1000 are drawn at 0, 100, 200, 300.
    assert_eq!((h[0].start, h[0].end), (100, 200));
    assert_eq!((h[1].start, h[1].end), (0, 300));
    assert_eq!(h[0].client_id, 7);
}

fn put_then_read() -> LinearizationInfo<RegisterModel> {
    let events = vec![
        put_call(0, 0, 100),
        put_return(0, 0),
        get_call(1, 1),
        get_return(1, 1, Some(100)),
    ];
    let (result, info) = porcupine_rs::check_events_info(events);
    assert_eq!(result, CheckResult::Legal);
    info
}

#[test]
fn a_refused_step_makes_the_info_undrawable() {
    let mut info = put_then_read();
    assert!(is_drawable(&info));
    let read = info.partition_ops[0]
        .iter()
        .position(|op| matches!(op.op, RegisterOp::Get(_)))
        .unwrap();
    // The read of 100 is refused from the initial state 0.
    info.partial_linearizations[0].push(vec![read]);
    assert!(!is_drawable(&info));
    info.partial_linearizations[0].pop();
    assert!(is_drawable(&info));
    // An index past the partition's operations cannot be drawn either.
    info.partial_linearizations[0].push(vec![7]);
    assert!(!is_drawable(&info));
}

#[test]
fn partitions_are_drawn_as_far_as_both_lists_go() {
    let mut info = put_then_read();
    let extra = info.partition_ops[0].clone();
    info.partition_ops.push(extra);
    assert!(is_drawable(&info));
    let data = compute_visualization_data(&info);
    assert_eq!(data.partitions.len(), 1);
    assert_eq!(data.partitions[0].history.len(), 2);
}

/// An etcd register log of many processes: writes of 1, 2, 3, ... each
/// read back, then a read of the first value after the last write.
fn large_etcd_log(writes: u32) -> Vec<String> {
    let mut lines = Vec::new();
    for v in 1..=writes {
        let p = v % 10;
        lines.push(format!("INFO  jepsen.util - {p} :invoke :write {v}"));
        lines.push(format!("INFO  jepsen.util - {p} :ok :write {v}"));
        let q = (v + 5) % 10;
        lines.push(format!("INFO  jepsen.util - {q} :invoke :read nil"));
        lines.push(format!("INFO  jepsen.util - {q} :ok :read {v}"));
    }
    lines.push("INFO  jepsen.util - 3 :invoke :read nil".to_string());
    lines.push("INFO  jepsen.util - 3 :ok :read 1".to_string());
    lines
}

#[test]
fn test_visualization_large() {
    let lines = read_etcd_log(&large_etcd_log(35)).expect("a well-formed log");
    let events: Vec<Event<EtcdModel>> = etcd_events(&lines).expect("paired events");
    assert_eq!(events.len(), 142);
    let (result, info) = porcupine_rs::check_events_info(events);
    assert_eq!(result, CheckResult::Illegal, "expected events to not be linearizable");
    // Every write and every read but the last lies on the longest partial
    // linearization, the whole log but the stale read.
    assert_eq!(info.partial_linearizations.len(), 1);
    assert!(info.partial_linearizations[0].iter().any(|s| s.len() == 70));
    assert!(is_drawable(&info));
    let data = compute_visualization_data(&info);
    assert_eq!(data.partitions.len(), 1);
    assert_eq!(data.partitions[0].history.len(), 71);
}

#[test]
fn history_elements_render_extreme_times() {
    let o1 = vec![read(1, i64::MIN, 0, "k", ""), write(2, 5, i64::MAX, "k", "v")];
    let (_result, info) = porcupine_rs::check_operations_info(o1);
    let data = compute_visualization_data(&info);
    let h = &data.partitions[0].history;
    assert_eq!(h[0].original_start, "-9223372036854775808");
    assert_eq!(h[0].original_start, i64::MIN.to_string());
    assert_eq!(h[0].original_end, "0");
    assert_eq!(h[1].original_start, "5");
    assert_eq!(h[1].original_end, "9223372036854775807");
}
