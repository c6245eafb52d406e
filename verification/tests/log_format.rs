use porcupine_rs::jepsen::{EtcdLogLine, KvLogLine};
use porcupine_rs::log_format::{read_etcd_line, read_etcd_log, read_kv_line, read_kv_log, LineRead};
use regex::Regex;

/// What the log's regular expressions make of an etcd line: `None` when
/// reading a number would fail.
fn etcd_by_regex(line: &str) -> Option<Option<EtcdLogLine>> {
    let pre = r"^INFO\s+jepsen\.util\s+-\s+(\d+)\s+";
    let invoke_read = Regex::new(&format!("{pre}:invoke\\s+:read\\s+nil$")).unwrap();
    let invoke_write = Regex::new(&format!("{pre}:invoke\\s+:write\\s+(\\d+)$")).unwrap();
    let invoke_cas = Regex::new(&format!("{pre}:invoke\\s+:cas\\s+\\[(\\d+)\\s+(\\d+)\\]$")).unwrap();
    let return_read = Regex::new(&format!("{pre}:ok\\s+:read\\s+(nil|\\d+)$")).unwrap();
    let return_write = Regex::new(&format!("{pre}:ok\\s+:write\\s+(\\d+)$")).unwrap();
    let return_cas = Regex::new(&format!("{pre}:(ok|fail)\\s+:cas\\s+\\[(\\d+)\\s+(\\d+)\\]$")).unwrap();
    let timeout_read = Regex::new(&format!("{pre}:fail\\s+:read\\s+:timed-out$")).unwrap();
    let p = |s: &str| s.parse::<u32>().ok();
    let v = |s: &str| s.parse::<i32>().ok();
    if let Some(c) = invoke_read.captures(line) {
        return Some(Some(EtcdLogLine::InvokeRead { process: p(&c[1])? }));
    }
    if let Some(c) = invoke_write.captures(line) {
        return Some(Some(EtcdLogLine::InvokeWrite { process: p(&c[1])?, value: v(&c[2])? }));
    }
    if let Some(c) = invoke_cas.captures(line) {
        return Some(Some(EtcdLogLine::InvokeCas {
            process: p(&c[1])?,
            from: v(&c[2])?,
            to: v(&c[3])?,
        }));
    }
    if let Some(c) = return_read.captures(line) {
        let process = p(&c[1])?;
        let value = if &c[2] == "nil" { None } else { Some(v(&c[2])?) };
        return Some(Some(EtcdLogLine::ReturnRead { process, value }));
    }
    if let Some(c) = return_write.captures(line) {
        return Some(Some(EtcdLogLine::ReturnWrite { process: p(&c[1])? }));
    }
    if let Some(c) = return_cas.captures(line) {
        return Some(Some(EtcdLogLine::ReturnCas { process: p(&c[1])?, ok: &c[2] == "ok" }));
    }
    if let Some(c) = timeout_read.captures(line) {
        return Some(Some(EtcdLogLine::TimeoutRead { process: p(&c[1])? }));
    }
    Some(None)
}

fn etcd_by_reader(line: &str) -> Option<Option<EtcdLogLine>> {
    match read_etcd_line(line) {
        LineRead::Line(l) => Some(Some(l)),
        LineRead::Skipped => Some(None),
        LineRead::Unreadable => None,
    }
}

const ETCD_LINES: &[&str] = &[
    "INFO  jepsen.util - 3\t:invoke\t:read\tnil",
    "INFO  jepsen.util - 3 :invoke :write 4",
    "INFO  jepsen.util - 12 :invoke :cas [1 4]",
    "INFO  jepsen.util - 3 :ok :read nil",
    "INFO  jepsen.util - 3 :ok :read 17",
    "INFO  jepsen.util - 3 :ok :write 4",
    "INFO  jepsen.util - 3 :ok :cas [1 4]",
    "INFO  jepsen.util - 3 :fail :cas [1 4]",
    "INFO  jepsen.util - 3 :fail :read :timed-out",
    "INFO jepsen.util - 0 :invoke :read nil",
    " INFO jepsen.util - 0 :invoke :read nil",
    "INFO jepsen.util - 0 :invoke :read nil ",
    "INFO jepsen.util - 0 :invoke :read nil\u{a0}",
    "INFO\u{3000}jepsen.util\u{2028}-\u{85}5 :invoke :read nil",
    "INFO jepsen-util - 0 :invoke :read nil",
    "INFO jepsen.util - x :invoke :read nil",
    "INFO jepsen.util - 4294967295 :invoke :read nil",
    "INFO jepsen.util - 4294967296 :invoke :read nil",
    "INFO jepsen.util - 1 :invoke :write 2147483647",
    "INFO jepsen.util - 1 :invoke :write 2147483648",
    "INFO jepsen.util - \u{663} :invoke :read nil",
    "INFO jepsen.util - 1 :ok :write \u{663}",
    "INFO jepsen.util - 1 :ok :cas [\u{663} 2]",
    "INFO jepsen.util - 1 :invoke :cas [\u{663} 2]",
    "INFO jepsen.util - 1 :invoke :cas [1  2]",
    "INFO jepsen.util - 1 :invoke :cas [1 2 ]",
    "INFO jepsen.util - 1 :invoke :cas [ 1 2]",
    "INFO jepsen.util - 1 :invoke :cas [12]",
    "INFO jepsen.util - 1 :ok :read -3",
    "INFO jepsen.util - 1 :ok :read 007",
    "INFO jepsen.util - 1 :fail :read nil",
    "INFO jepsen.util - 1 :ok :read :timed-out",
    "INFO jepsen.util - 1 :invoke :read nil extra",
    "INFO\x0bjepsen.util\x0c-\r1\n:invoke :read nil",
    "INFO jepsen.util - 1 :invoke :read nil\n",
    "INFO jepsen.util - 1 :fail :cas [1 2]",
    "INFO jepsen.util - 1 :fail :write 2",
    "INFO jepsen.util - 0001 :invoke :write 0",
    "",
    "INFO",
    "random text",
];

#[test]
fn etcd_lines_read_as_the_patterns_do() {
    for line in ETCD_LINES {
        assert_eq!(etcd_by_reader(line), etcd_by_regex(line), "line {line:?}");
    }
}

#[test]
fn etcd_line_values() {
    assert_eq!(
        etcd_by_reader("INFO  jepsen.util - 12 :invoke :cas [1 4]"),
        Some(Some(EtcdLogLine::InvokeCas { process: 12, from: 1, to: 4 }))
    );
    assert_eq!(
        etcd_by_reader("INFO jepsen.util - 3 :ok :read 17"),
        Some(Some(EtcdLogLine::ReturnRead { process: 3, value: Some(17) }))
    );
    assert_eq!(etcd_by_reader("INFO jepsen.util - 4294967296 :invoke :read nil"), None);
    assert_eq!(etcd_by_reader("INFO jepsen.util - 0 :invoke :read nil "), Some(None));
}

#[test]
fn etcd_log_stops_at_an_unreadable_line() {
    let ok: Vec<String> = vec![
        "INFO jepsen.util - 1 :invoke :read nil".into(),
        "noise".into(),
        "INFO jepsen.util - 1 :ok :read 5".into(),
    ];
    assert_eq!(
        read_etcd_log(&ok),
        Some(vec![
            EtcdLogLine::InvokeRead { process: 1 },
            EtcdLogLine::ReturnRead { process: 1, value: Some(5) },
        ])
    );
    let mut bad = ok.clone();
    bad.push("INFO jepsen.util - 1 :invoke :write 99999999999".into());
    assert_eq!(read_etcd_log(&bad), None);
}

/// What the log's regular expressions make of a key-value line.
fn kv_by_regex(line: &str) -> Option<Option<KvLogLine>> {
    let invoke_read =
        Regex::new(r#"\{:process (\d+), :type :invoke, :f :get, :key "(.*)", :value nil\}"#).unwrap();
    let invoke_write =
        Regex::new(r#"\{:process (\d+), :type :invoke, :f :put, :key "(.*)", :value "(.*)"\}"#).unwrap();
    let invoke_append =
        Regex::new(r#"\{:process (\d+), :type :invoke, :f :append, :key "(.*)", :value "(.*)"\}"#)
            .unwrap();
    let return_read =
        Regex::new(r#"\{:process (\d+), :type :ok, :f :get, :key ".*", :value "(.*)"\}"#).unwrap();
    let return_write =
        Regex::new(r#"\{:process (\d+), :type :ok, :f :put, :key ".*", :value ".*"\}"#).unwrap();
    let return_append =
        Regex::new(r#"\{:process (\d+), :type :ok, :f :append, :key ".*", :value ".*"\}"#).unwrap();
    let p = |s: &str| s.parse::<u32>().ok();
    if let Some(c) = invoke_read.captures(line) {
        return Some(Some(KvLogLine::InvokeRead { process: p(&c[1])?, key: c[2].to_owned() }));
    }
    if let Some(c) = invoke_write.captures(line) {
        return Some(Some(KvLogLine::InvokeWrite {
            process: p(&c[1])?,
            key: c[2].to_owned(),
            value: c[3].to_owned(),
        }));
    }
    if let Some(c) = invoke_append.captures(line) {
        return Some(Some(KvLogLine::InvokeAppend {
            process: p(&c[1])?,
            key: c[2].to_owned(),
            value: c[3].to_owned(),
        }));
    }
    if let Some(c) = return_read.captures(line) {
        return Some(Some(KvLogLine::ReturnRead { process: p(&c[1])?, value: c[2].to_owned() }));
    }
    if let Some(c) = return_write.captures(line) {
        return Some(Some(KvLogLine::ReturnWrite { process: p(&c[1])? }));
    }
    if let Some(c) = return_append.captures(line) {
        return Some(Some(KvLogLine::ReturnAppend { process: p(&c[1])? }));
    }
    Some(None)
}

fn kv_by_reader(line: &str) -> Option<Option<KvLogLine>> {
    match read_kv_line(line) {
        LineRead::Line(l) => Some(Some(l)),
        LineRead::Skipped => Some(None),
        LineRead::Unreadable => None,
    }
}

const KV_LINES: &[&str] = &[
    r#"{:process 0, :type :invoke, :f :get, :key "7", :value nil}"#,
    r#"{:process 1, :type :invoke, :f :put, :key "3", :value "x 1 y"}"#,
    r#"{:process 2, :type :invoke, :f :append, :key "3", :value "x 2 y"}"#,
    r#"{:process 0, :type :ok, :f :get, :key "7", :value "x 1 yx 2 y"}"#,
    r#"{:process 1, :type :ok, :f :put, :key "3", :value "x 1 y"}"#,
    r#"{:process 2, :type :ok, :f :append, :key "3", :value "x 2 y"}"#,
    r#"{:process 0, :type :ok, :f :get, :key "7", :value ""}"#,
    r#"prefix {:process 5, :type :invoke, :f :get, :key "a", :value nil} suffix"#,
    r#"{:process 5, :type :invoke, :f :get, :key "a", :value nil}{:process 6, :type :invoke, :f :get, :key "b", :value nil}"#,
    r#"{:process 1, :type :invoke, :f :put, :key "k", :value "v"}, :value "w"}"#,
    r#"{:process 1, :type :invoke, :f :put, :key "k", :value "v", :value "w"}"#,
    r#"{:process 1, :type :invoke, :f :put, :key "k", :value "}"#,
    r#"{:process 1, :type :invoke, :f :put, :key "k", :value ""}"#,
    r#"{:process 1, :type :invoke, :f :put, :key "k", :value "a"}"}"#,
    r#"{:process x, :type :invoke, :f :get, :key "7", :value nil}"#,
    r#"{:process , :type :invoke, :f :get, :key "7", :value nil}"#,
    r#"{:process 99999999999, :type :invoke, :f :get, :key "7", :value nil}"#,
    "{:process \u{663}, :type :invoke, :f :get, :key \"7\", :value nil}",
    "{:process 1, :type :invoke, :f :get, :key \"a\nb\", :value nil}",
    "{:process 1, :type :invoke, :f :get, :key \"a\", :value nil}\n{:process 2, :type :invoke, :f :get, :key \"b\", :value nil}",
    "{:process 1, :type :invoke, :f :put, :key \"k\", :value \"v\"}\n\"}",
    r#"{:process 3, :type :ok, :f :get, :key "k", :value "v"} {:process 4, :type :invoke, :f :get, :key "k", :value nil}"#,
    r#"{:process 1, :type :fail, :f :get, :key "7", :value nil}"#,
    r#"{:process 1,  :type :invoke, :f :get, :key "7", :value nil}"#,
    r#"{:process 1, :type :invoke, :f :put, :key "a", :value "b", :value "c"}"}"#,
    r#"{:process 1, :type :invoke, :f :put, :key "a", :value "x"} y"} z"#,
    r#"{:process 1, :type :invoke, :f :get, :key "a" {:process 2, :type :invoke, :f :get, :key "b", :value nil}"#,
    r#"{:process 1, :type :invoke, :f :get, :key "a", :value nil} {:process 2, :type :invoke, :f :put, :key "b", :value "c"}"#,
    r#"{:process 1, :type :ok, :f :get, :key "a", :value "b"} {:process 2, :type :invoke, :f :get, :key "b", :value nil}"#,
    "{:process 12, :type :ok, :f :get, :key \"\u{663}\", :value \"\r\"}",
    "{:process 12, :type :ok, :f :append, :key \"k\", :value \"v\"}\r",
    "{:process 1\u{663}, :type :invoke, :f :get, :key \"7\", :value nil}",
    r#"{:process 1, :type :invoke, :f :append, :key "", :value ""}"#,
    r#"{:process 1, :type :invoke, :f :put, :key "", :value nil}"#,
    "",
    "garbage",
];

#[test]
fn kv_lines_read_as_the_patterns_do() {
    for line in KV_LINES {
        assert_eq!(kv_by_reader(line), kv_by_regex(line), "line {line:?}");
    }
}

#[test]
fn kv_line_values() {
    assert_eq!(
        kv_by_reader(r#"{:process 1, :type :invoke, :f :put, :key "k", :value "v", :value "w"}"#),
        Some(Some(KvLogLine::InvokeWrite {
            process: 1,
            key: r#"k", :value "v"#.to_string(),
            value: "w".to_string(),
        }))
    );
    assert_eq!(
        kv_by_reader(r#"{:process 1, :type :invoke, :f :put, :key "k", :value "v"}, :value "w"}"#),
        Some(Some(KvLogLine::InvokeWrite {
            process: 1,
            key: "k".to_string(),
            value: r#"v"}, :value "w"#.to_string(),
        }))
    );
    assert_eq!(
        kv_by_reader(r#"prefix {:process 5, :type :invoke, :f :get, :key "a", :value nil} suffix"#),
        Some(Some(KvLogLine::InvokeRead { process: 5, key: "a".to_string() }))
    );
    assert_eq!(
        kv_by_reader(r#"{:process 99999999999, :type :invoke, :f :get, :key "7", :value nil}"#),
        None
    );
}

#[test]
fn kv_log_reads_lines_in_order() {
    let lines: Vec<String> = vec![
        r#"{:process 0, :type :invoke, :f :put, :key "1", :value "a"}"#.into(),
        "noise".into(),
        r#"{:process 0, :type :ok, :f :put, :key "1", :value "a"}"#.into(),
    ];
    let read = read_kv_log(&lines).unwrap();
    assert_eq!(read.len(), 2);
    assert!(matches!(read[1], KvLogLine::ReturnWrite { process: 0 }));
    let mut bad = lines.clone();
    bad.push(r#"{:process 4294967296, :type :ok, :f :put, :key "1", :value "a"}"#.into());
    assert!(read_kv_log(&bad).is_none());
}
