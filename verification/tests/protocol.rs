//! The tool protocol.
use octasoma::numbers::Binary32;
use octasoma::payloads::{kind_of, pack, split_payload};
use octasoma::protocol::{error, handle, handle_request, reply, tool_list, tool_reply, Action, Tool};
use octasoma::reports::{
    explain_report, ingest_report, recall_report, score, stats_report, Hit, Neighbor, ZoomStep,
};
use octasoma::tools::{confirm_save, finish_explain, finish_ingest, finish_recall, Explanation};
use octasoma::FractalMemory3D;
use serde_json::Value;

fn single(x: f32) -> Binary32 {
    Binary32 { bits: x.to_bits() }
}

fn singles(xs: &[f32]) -> Vec<Binary32> {
    xs.iter().map(|&x| single(x)).collect()
}

fn answer(line: &str) -> String {
    match handle(line, "0.1.0") {
        Action::Reply { text } => text,
        _ => panic!("no reply"),
    }
}

fn call(arguments: &str) -> Tool {
    let line = format!("{{\"id\":1,\"method\":\"tools/call\",\"params\":{arguments}}}");
    match handle(&line, "0.1.0") {
        Action::Call { id, tool } => {
            assert_eq!(id, Some(Value::from(1)));
            tool
        }
        _ => panic!("no call"),
    }
}

fn reason(tool: Tool) -> String {
    match tool {
        Tool::Refused { reason } => reason,
        _ => panic!("not refused"),
    }
}

#[test]
fn initialize_is_answered() {
    assert_eq!(
        answer("{\"jsonrpc\":\"2.0\",\"id\":7,\"method\":\"initialize\"}"),
        "{\"id\":7,\"jsonrpc\":\"2.0\",\"result\":{\"capabilities\":{\"tools\":{}},\"protocolVersion\":\"2024-11-05\",\"serverInfo\":{\"name\":\"octasoma\",\"version\":\"0.1.0\"}}}"
    );
}

#[test]
fn ping_is_answered_under_any_id() {
    assert_eq!(
        answer("{\"id\":\"a\\n\",\"method\":\"ping\"}"),
        "{\"id\":\"a\\n\",\"jsonrpc\":\"2.0\",\"result\":{}}"
    );
    assert_eq!(answer("{\"method\":\"ping\"}"), "{\"id\":null,\"jsonrpc\":\"2.0\",\"result\":{}}");
}

#[test]
fn unknown_methods_are_answered_with_an_error() {
    assert_eq!(
        answer("{\"id\":[1.5],\"method\":\"nope\"}"),
        "{\"error\":{\"code\":-32601,\"message\":\"method not found\"},\"id\":[1.5],\"jsonrpc\":\"2.0\"}"
    );
    assert_eq!(
        answer("{\"id\":null}"),
        "{\"error\":{\"code\":-32601,\"message\":\"method not found\"},\"id\":null,\"jsonrpc\":\"2.0\"}"
    );
}

#[test]
fn notifications_and_nonsense_are_not_answered() {
    for line in [
        "{\"method\":\"notifications/initialized\"}",
        "{\"id\":3,\"method\":\"initialized\"}",
        "{\"method\":\"nope\"}",
        "{}",
        "[]",
        "not json",
        "",
    ] {
        assert!(matches!(handle(line, "0.1.0"), Action::Nothing));
    }
}

#[test]
fn tools_are_listed() {
    let list = tool_list();
    assert_eq!(
        answer("{\"id\":2,\"method\":\"tools/list\"}"),
        format!("{{\"id\":2,\"jsonrpc\":\"2.0\",\"result\":{{\"tools\":{list}}}}}")
    );
    let names: Vec<&str> =
        list.as_array().unwrap().iter().map(|t| t.get("name").unwrap().as_str().unwrap()).collect();
    assert_eq!(names, ["ingest", "recall", "explain", "stats"]);
    let recall = &list.as_array().unwrap()[1];
    assert_eq!(
        recall.get("inputSchema").unwrap().to_string(),
        "{\"properties\":{\"k\":{\"default\":5,\"type\":\"integer\"},\"text\":{\"type\":\"string\"}},\"required\":[\"text\"],\"type\":\"object\"}"
    );
    let stats = &list.as_array().unwrap()[3];
    assert_eq!(stats.get("inputSchema").unwrap().to_string(), "{\"properties\":{},\"type\":\"object\"}");
}

#[test]
fn ingest_takes_a_name_and_a_text() {
    match call("{\"name\":\"ingest\",\"arguments\":{\"uri\":\"file:a\",\"text\":\"hello\"}}") {
        Tool::Ingest { uri, text } => {
            assert_eq!(uri, "file:a");
            assert_eq!(text, "hello");
        }
        _ => panic!("not an ingestion"),
    }
    assert_eq!(reason(call("{\"name\":\"ingest\",\"arguments\":{\"uri\":\"x\"}}")), "ingest needs `text`");
    assert_eq!(reason(call("{\"name\":\"ingest\"}")), "ingest needs `text`");
    assert_eq!(
        reason(call("{\"name\":\"ingest\",\"arguments\":{\"text\":5}}")),
        "ingest needs `text`"
    );
}

fn recall_of(arguments: &str) -> (String, usize) {
    match call(&format!("{{\"name\":\"recall\",\"arguments\":{arguments}}}")) {
        Tool::Recall { text, k } => (text, k),
        _ => panic!("not a recall"),
    }
}

#[test]
fn recall_takes_its_count_from_k_then_budget() {
    assert_eq!(recall_of("{\"text\":\"q\"}"), ("q".to_string(), 5));
    assert_eq!(recall_of("{\"text\":\"q\",\"budget\":9}"), ("q".to_string(), 9));
    assert_eq!(recall_of("{\"text\":\"q\",\"budget\":9,\"k\":2}"), ("q".to_string(), 2));
    assert_eq!(recall_of("{\"text\":\"q\",\"k\":0}"), ("q".to_string(), 1));
    assert_eq!(recall_of("{\"text\":\"q\",\"k\":-3}"), ("q".to_string(), 5));
    assert_eq!(recall_of("{\"anchor\":\"a\"}"), ("a".to_string(), 5));
    assert_eq!(recall_of("{\"text\":\"q\",\"anchor\":\"a\"}"), ("q".to_string(), 5));
    assert_eq!(reason(call("{\"name\":\"recall\",\"arguments\":{}}")), "recall needs `text`");
}

#[test]
fn explain_and_stats_are_recognised() {
    match call("{\"name\":\"explain\",\"arguments\":{\"text\":\"q\",\"k\":3,\"budget\":8}}") {
        Tool::Explain { text, k } => {
            assert_eq!(text, "q");
            assert_eq!(k, 3);
        }
        _ => panic!("not an explanation"),
    }
    assert_eq!(
        reason(call("{\"name\":\"explain\",\"arguments\":{\"anchor\":\"a\"}}")),
        "explain needs `text`"
    );
    assert!(matches!(call("{\"name\":\"stats\"}"), Tool::Stats));
}

#[test]
fn unknown_tools_are_refused_by_name() {
    assert_eq!(reason(call("{\"name\":\"forget\"}")), "unknown tool 'forget'");
    assert_eq!(reason(call("{}")), "unknown tool ''");
}

#[test]
fn requests_can_be_handed_over_as_values() {
    let mut req = serde_json::Map::new();
    req.insert("id".to_string(), Value::from(4));
    req.insert("method".to_string(), Value::from("ping"));
    match handle_request(&Value::Object(req), "1") {
        Action::Reply { text } => assert_eq!(text, "{\"id\":4,\"jsonrpc\":\"2.0\",\"result\":{}}"),
        _ => panic!("no reply"),
    }
}

#[test]
fn replies_and_errors_have_their_form() {
    assert_eq!(
        reply(Some(Value::from(1)), Value::from(true)),
        "{\"id\":1,\"jsonrpc\":\"2.0\",\"result\":true}"
    );
    assert_eq!(
        error(None, 12, "say \"no\""),
        "{\"error\":{\"code\":12,\"message\":\"say \\\"no\\\"\"},\"id\":null,\"jsonrpc\":\"2.0\"}"
    );
}

#[test]
fn tool_replies_carry_text_and_outcome() {
    assert_eq!(
        tool_reply(Some(Value::from(1)), Ok(ingest_report("file:a"))),
        "{\"id\":1,\"jsonrpc\":\"2.0\",\"result\":{\"content\":[{\"text\":\"{\\\"nodes_added\\\":1,\\\"uri\\\":\\\"file:a\\\"}\",\"type\":\"text\"}],\"isError\":false}}"
    );
    assert_eq!(
        tool_reply(None, Err("ingest needs `text`".to_string())),
        "{\"id\":null,\"jsonrpc\":\"2.0\",\"result\":{\"content\":[{\"text\":\"ingest needs `text`\",\"type\":\"text\"}],\"isError\":true}}"
    );
}

#[test]
fn payloads_are_packed_and_split() {
    assert_eq!(pack("u", "text"), "u\u{1f}text");
    assert_eq!(split_payload("u\u{1f}a\u{1f}b"), ("u".to_string(), "a\u{1f}b".to_string()));
    assert_eq!(split_payload("plain"), (String::new(), "plain".to_string()));
    assert_eq!(split_payload(""), (String::new(), String::new()));
    assert_eq!(split_payload(&pack("näme", "täxt")), ("näme".to_string(), "täxt".to_string()));
}

#[test]
fn kinds_are_schemes() {
    assert_eq!(kind_of("file:///a:b"), "file");
    assert_eq!(kind_of("plain"), "plain");
    assert_eq!(kind_of(":x"), "memory");
    assert_eq!(kind_of(""), "memory");
}

fn store() -> (FractalMemory3D, usize) {
    let rows = [1.0f32, 0.0, 0.0, 0.0, 1.0, 0.0, 0.0, 0.0, 1.0];
    let mut mem = FractalMemory3D::new_from_calibration(3, singles(&rows));
    let id = mem.insert_text("file:a", "grün", &singles(&[0.5, 0.5, 0.5]), single(1e-6)).unwrap();
    (mem, id)
}

#[test]
fn texts_are_read_back() {
    let (mem, id) = store();
    assert_eq!(mem.memory_text(id), ("file:a".to_string(), "grün".to_string()));
    assert_eq!(mem.memory_text(99), (String::new(), String::new()));
    assert_eq!(mem.get_payload(id).unwrap(), "file:a\u{1f}grün".as_bytes());
}

#[test]
fn bytes_that_are_no_text_are_replaced() {
    let (mut mem, _) = store();
    let id = mem.insert(&singles(&[-0.5, 0.5, 0.5]), Some(b"u\x1fa\xffb"), single(1e-6)).unwrap();
    assert_eq!(mem.memory_text(id), ("u".to_string(), "a\u{fffd}b".to_string()));
}

#[test]
fn recalls_are_reported() {
    let (mem, id) = store();
    let hits = vec![
        Hit { id, score: Value::from(0.5) },
        Hit { id: 99, score: Value::from(1) },
    ];
    assert_eq!(
        recall_report(&mem, hits).to_string(),
        "{\"items\":[{\"content\":\"grün\",\"kind\":\"file\",\"score\":0.5,\"uri\":\"file:a\"},{\"content\":\"\",\"kind\":\"memory\",\"score\":1,\"uri\":\"\"}],\"strategy\":\"semantic\",\"tokens\":3}"
    );
    assert_eq!(
        recall_report(&mem, vec![]).to_string(),
        "{\"items\":[],\"strategy\":\"semantic\",\"tokens\":0}"
    );
}

#[test]
fn explanations_are_reported() {
    let report = explain_report(
        Value::from(vec![0.5, 1.0]),
        vec![ZoomStep { level: 0, count: 12, half_size: Value::from(2.5) }],
        vec![Neighbor {
            payload: b"u:x\x1fc".to_vec(),
            distance: Value::from(0.25),
            point: Value::from(vec![1, 2, 3]),
        }],
    );
    assert_eq!(
        report.to_string(),
        "{\"neighbors\":[{\"content\":\"c\",\"distance\":0.25,\"point\":[1,2,3],\"uri\":\"u:x\"}],\"query_point\":[0.5,1.0],\"zoom_path\":[{\"count\":12,\"half_size\":2.5,\"level\":0}]}"
    );
}

#[test]
fn statistics_are_reported() {
    let (mem, _) = store();
    assert_eq!(
        stats_report(&mem, 1).to_string(),
        "{\"arena_bytes\":12,\"high_dim\":3,\"memories\":1,\"nodes\":2}"
    );
}

#[test]
fn scores_fall_with_the_distance() {
    for d2 in [0.0f32, 1.0, 0.3, 7.5, 1e30, f32::INFINITY] {
        let expected = 1.0 / (1.0 + d2 as f64);
        assert_eq!(f64::from_bits(score(single(d2)).bits), expected);
    }
}

#[test]
fn strings_are_escaped() {
    assert_eq!(
        reply(None, Value::from("\"\\/\u{8}\t\n\u{c}\r\u{0}\u{1f}\u{7f}é")),
        "{\"id\":null,\"jsonrpc\":\"2.0\",\"result\":\"\\\"\\\\/\\b\\t\\n\\f\\r\\u0000\\u001f\u{7f}é\"}"
    );
    assert_eq!(
        ingest_report("\"\\/\u{8}\t\n\u{c}\r\u{0}\u{1f}\u{7f}é").to_string(),
        "{\"nodes_added\":1,\"uri\":\"\\\"\\\\/\\b\\t\\n\\f\\r\\u0000\\u001f\u{7f}é\"}"
    );
}

#[test]
fn a_good_ingest_inserts_and_yields_the_file() {
    let (mut core, _) = store();
    let (mut by_hand, _) = store();
    let e = singles(&[-0.5, 0.5, 0.5]);
    by_hand.insert_text("u:1", "text", &e, single(1e-6));
    match finish_ingest(&mut core, "u:1", "text", Ok(e.clone()), single(1e-6)) {
        Ok((file, report)) => {
            assert_eq!(file, by_hand.encode());
            assert_eq!(file, core.encode());
            assert_eq!(report.to_string(), "{\"nodes_added\":1,\"uri\":\"u:1\"}");
        }
        Err(_) => panic!("refused"),
    }
    let id = core.locate(&e).unwrap();
    assert_eq!(core.memory_text(id), ("u:1".to_string(), "text".to_string()));
}

#[test]
fn a_failed_embedding_changes_nothing() {
    let (mut core, _) = store();
    let before = core.encode();
    let outcome = finish_ingest(&mut core, "u", "t", Err("no service".to_string()), single(1e-6));
    assert!(matches!(outcome, Err(e) if e == "no service"));
    assert_eq!(core.encode(), before);
}

#[test]
fn an_embedding_of_another_length_is_dropped_but_saved() {
    let (mut core, _) = store();
    let before = core.encode();
    match finish_ingest(&mut core, "u", "t", Ok(singles(&[1.0])), single(1e-6)) {
        Ok((file, _)) => assert_eq!(file, before),
        Err(_) => panic!("refused"),
    }
}

#[test]
fn a_failed_save_is_reported() {
    assert_eq!(confirm_save(Value::from(1), Ok(())), Ok(Value::from(1)));
    assert_eq!(
        confirm_save(Value::from(1), Err("disk full".to_string())),
        Err("save failed: disk full".to_string())
    );
}

#[test]
fn recalls_and_explanations_end_with_a_report_or_a_reason() {
    let (core, id) = store();
    let hits = || vec![Hit { id, score: Value::from(1) }];
    assert_eq!(finish_recall(&core, Ok(hits())), Ok(recall_report(&core, hits())));
    assert_eq!(finish_recall(&core, Err("down".to_string())), Err("down".to_string()));
    let placed = || Explanation {
        query_point: Value::from(vec![1, 2, 3]),
        zoom_path: vec![],
        neighbors: vec![],
    };
    assert_eq!(
        finish_explain(Ok(Some(placed()))),
        Ok(explain_report(Value::from(vec![1, 2, 3]), vec![], vec![]))
    );
    assert_eq!(
        finish_explain(Ok(None)),
        Err("query did not project to a valid point".to_string())
    );
    assert_eq!(finish_explain(Err("down".to_string())), Err("down".to_string()));
}
