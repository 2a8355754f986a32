//! Log lines, request metrics, and the JSON-RPC side.

use psyrag::graph::TemporalGraph;
use psyrag::json::{parse_json, Json};
use psyrag::log::{event, iso8601, Format};
use psyrag::prom::{classify, RequestMetrics, ROUTES};
use psyrag::recall::{query_tokens, recall_seeds, recall_text, Recalled, TraceRing};
use psyrag::rpc::{
    dispatch, event_line, parse, parse_event, read_hook, read_last_sleep, recall_reply, sleep_due,
    Answer, Event, Response, Sleep, PROTOCOL_VERSION,
};
use psyrag::touch::{cold_start, ingest_touch, TouchWindow};

fn at<'a>(v: &'a Json, path: &[&str]) -> &'a Json {
    let mut cur = v;
    for p in path {
        cur = match cur {
            Json::Arr(a) => &a[p.parse::<usize>().unwrap()],
            _ => cur.get(p).unwrap(),
        };
    }
    cur
}

fn text(v: &Json) -> String {
    match v {
        Json::Str(s) => s.clone(),
        other => panic!("not a string: {:?}", other),
    }
}

fn num(v: &Json) -> String {
    match v {
        Json::Num(s) => s.clone(),
        other => panic!("not a number: {:?}", other),
    }
}

#[test]
fn iso8601_known_answers() {
    assert_eq!(iso8601(0), "1970-01-01T00:00:00.000Z");
    // 2000-03-01 leap-adjacent boundary
    assert_eq!(iso8601(951_868_800_000), "2000-03-01T00:00:00.000Z");
    // arbitrary modern timestamp with millis
    assert_eq!(iso8601(1_784_540_130_456), "2026-07-20T09:35:30.456Z");
}

#[test]
fn iso8601_before_the_epoch() {
    assert_eq!(iso8601(-1), "1969-12-31T23:59:59.999Z");
    assert_eq!(iso8601(-62_167_219_200_000), "0000-01-01T00:00:00.000Z");
    assert_eq!(iso8601(1_709_164_800_000), "2024-02-29T00:00:00.000Z");
}

#[test]
fn log_lines_in_both_formats() {
    let fields = Json::Obj(vec![("db".to_string(), Json::Str("default".to_string()))]);
    let line = event(Format::Json, 0, "info", "start", &fields);
    let v = parse_json(&line).unwrap();
    assert_eq!(text(at(&v, &["db"])), "default");
    assert!(event(Format::Text, 0, "info", "start", &fields).contains("start"));
}

#[test]
fn classify_covers_routes_and_strips_nothing_unknown() {
    assert_eq!(ROUTES[classify("/retrieve")], "retrieve");
    assert_eq!(ROUTES[classify("/trace/17")], "trace");
    assert_eq!(ROUTES[classify("")], "db_admin");
    assert_eq!(ROUTES[classify("/definitely-not-a-route")], "other");
    assert_eq!(ROUTES[classify("/live")], "health");
}

#[test]
fn classify_aliases() {
    assert_eq!(ROUTES[classify("//metrics")], "stats");
    assert_eq!(ROUTES[classify("/ready")], "health");
    assert_eq!(ROUTES[classify("/db_admin")], "other");
}

#[test]
fn histogram_renders_cumulative_buckets() {
    let mut m = RequestMetrics::new();
    m.record(classify("/retrieve"), 200, 3_000_000);
    m.record(classify("/retrieve"), 200, 30_000_000);
    m.record(classify("/retrieve"), 404, 300_000_000);
    let mut s = String::new();
    m.render(&mut s);
    assert!(s.contains("psyrag_requests_total{route=\"retrieve\",status=\"2xx\"} 2"));
    assert!(s.contains("psyrag_requests_total{route=\"retrieve\",status=\"4xx\"} 1"));
    assert!(s.contains("le=\"+Inf\"} 3"));
    assert!(s.contains("psyrag_request_duration_seconds_count{route=\"retrieve\"} 3"));
    // cumulative: the 0.05 bucket holds the 3ms and 30ms observations
    assert!(s.contains("le=\"0.05\"} 2"));
    assert!(s.contains("psyrag_request_duration_seconds_sum{route=\"retrieve\"} 0.333\n"));
}

#[test]
fn metrics_past_the_last_class_count_as_other() {
    let mut m = RequestMetrics::new();
    m.record(99, 503, 6_000_000_000);
    let mut s = String::new();
    m.render(&mut s);
    assert!(s.contains("psyrag_requests_total{route=\"other\",status=\"5xx\"} 1\n"));
    assert!(s.contains("{route=\"other\",le=\"5\"} 0\n"));
    assert!(s.contains("{route=\"other\",le=\"+Inf\"} 1\n"));
    assert!(s.contains("_sum{route=\"other\"} 6\n"));
}

#[test]
fn window_pairs_recent_touches_within_span() {
    let mut w = TouchWindow::new(3);
    assert_eq!(w.record("a.rs"), Vec::<(String, String)>::new()); // first: no pairs
    assert_eq!(w.record("b.rs"), vec![("b.rs".to_string(), "a.rs".to_string())]);
    let pairs = w.record("c.rs"); // pairs with b and a (window 3)
    assert_eq!(pairs, vec![("c.rs".into(), "b.rs".into()), ("c.rs".into(), "a.rs".into())]);
}

#[test]
fn window_drops_beyond_span_and_skips_self() {
    let mut w = TouchWindow::new(2);
    w.record("a.rs");
    w.record("b.rs");
    let pairs = w.record("a.rs"); // a re-touched: pairs only with b (a itself skipped)
    assert_eq!(pairs, vec![("a.rs".to_string(), "b.rs".to_string())]);
}

#[test]
fn touches_link_files_unless_wedged() {
    let mut g = TemporalGraph::new();
    let mut w = TouchWindow::new(5);
    ingest_touch(&mut g, &mut w, false, "a.rs", 1).unwrap();
    ingest_touch(&mut g, &mut w, false, "b.rs", 2).unwrap();
    assert_eq!(g.node_count(), 2);
    assert_eq!(
        g.open_out_edges_named("b.rs"),
        vec![("a.rs".to_string(), "CO_EDITED".to_string())]
    );
    ingest_touch(&mut g, &mut w, true, "c.rs", 3).unwrap();
    assert_eq!(g.node_count(), 2);
}

#[test]
fn cold_start_links_files_of_a_commit() {
    let mut g = TemporalGraph::new();
    let history = "\u{0}\na.rs\nb.rs\n c.rs \n\n\u{0}\nd.rs\n";
    assert_eq!(cold_start(&mut g, history, 7).unwrap(), 3);
    assert_eq!(g.node_count(), 4);
    assert_eq!(g.node_type(0), "file");
    // a graph that holds nodes is left alone
    assert_eq!(cold_start(&mut g, "x\ny", 8).unwrap(), 0);
    assert_eq!(g.node_count(), 4);
}

#[test]
fn cold_start_takes_five_files_of_a_commit() {
    let mut g = TemporalGraph::new();
    assert_eq!(cold_start(&mut g, "1\n2\n3\n4\n5\n6\n7", 7).unwrap(), 10);
    assert_eq!(g.node_count(), 5);
}

#[test]
fn tokenizes_like_the_name_index() {
    assert_eq!(query_tokens("svc/Metering-api v2"), vec!["svc", "metering", "api", "v2"]);
}

#[test]
fn a_token_has_two_characters() {
    assert_eq!(query_tokens("\u{e9} x1"), vec!["x1"]);
    assert_eq!(query_tokens("\u{e9}\u{e9} x"), vec!["\u{e9}\u{e9}"]);
}

#[test]
fn ring_keeps_last_cap_traces() {
    let mut r: TraceRing<u32> = TraceRing::new(2);
    assert_eq!(r.iter().count(), 0);
    assert_eq!(r.cap(), 2);
    r.push(1);
    r.push(2);
    r.push(3);
    assert_eq!(r.iter().copied().collect::<Vec<u32>>(), vec![2, 3]);
}

#[test]
fn recall_answers() {
    let mut g = TemporalGraph::new();
    let mut w = TouchWindow::new(5);
    ingest_touch(&mut g, &mut w, false, "src/lexer.rs", 1).unwrap();
    assert_eq!(recall_seeds(&g, "Lexer bug"), vec![0]);
    assert!(recall_seeds(&g, "parser").is_empty());
    assert_eq!(recall_text("x", &Recalled::NoSeeds), "no memory matches 'x' yet");
    assert_eq!(
        recall_text("x", &Recalled::NoActivation),
        "'x' matched seeds but activated nothing"
    );
    let found = Recalled::Found {
        mass: "1.500".to_string(),
        rows: vec![("0.750".to_string(), "src/lexer.rs".to_string())],
    };
    assert_eq!(recall_text("x", &found), "recall 'x' (mass 1.500):\n  0.750  src/lexer.rs\n");
}

#[test]
fn event_json_roundtrips() {
    let ev = Event::Used { path: "src/a.rs".into() };
    let line = event_line(&ev);
    assert!(line.contains("\"kind\":\"used\""));
    assert!(matches!(parse_event(&line), Some(Event::Used { path }) if path == "src/a.rs"));
    assert!(matches!(parse_event(r#"{"kind":"compact"}"#), Some(Event::Compact)));
    assert!(parse_event(r#"{"kind":"used"}"#).is_none());
    assert!(parse_event("nope").is_none());
}

#[test]
fn parses_a_request() {
    let r = parse(r#"{"jsonrpc":"2.0","id":1,"method":"ping","params":{}}"#).ok().unwrap();
    assert_eq!(r.method, "ping");
    assert_eq!(num(&r.id.unwrap()), "1");
}

#[test]
fn parse_error_is_a_sendable_response() {
    let resp = parse("not json").err().unwrap();
    let v = resp.0;
    assert_eq!(num(at(&v, &["error", "code"])), "-32700");
    assert!(matches!(at(&v, &["id"]), Json::Null));
}

#[test]
fn a_request_without_a_method_is_refused() {
    let v = parse(r#"{"id":1}"#).err().unwrap().0;
    assert_eq!(num(at(&v, &["error", "code"])), "-32600");
}

#[test]
fn result_and_error_shapes() {
    let seven = Some(Json::Num("7".to_string()));
    let ok = Response::result(
        &seven,
        Json::Obj(vec![("pong".to_string(), Json::Bool(true))]),
    );
    let ov = parse_json(&ok.to_line()).unwrap();
    assert_eq!(text(at(&ov, &["jsonrpc"])), "2.0");
    assert_eq!(num(at(&ov, &["id"])), "7");
    assert!(matches!(at(&ov, &["result", "pong"]), Json::Bool(true)));

    let er = Response::error(&seven, -32601, "no such method");
    let ev = parse_json(&er.to_line()).unwrap();
    assert_eq!(num(at(&ev, &["error", "code"])), "-32601");
    assert_eq!(text(at(&ev, &["error", "message"])), "no such method");
}

fn reply(line: &str) -> Json {
    match dispatch(&parse(line).ok().unwrap(), "0.1.0") {
        Answer::Reply(r) => r.0,
        _ => panic!("no reply"),
    }
}

#[test]
fn initialize_advertises_tools_capability() {
    let v = reply(r#"{"jsonrpc":"2.0","id":1,"method":"initialize","params":{}}"#);
    assert_eq!(text(at(&v, &["result", "protocolVersion"])), PROTOCOL_VERSION);
    assert!(matches!(at(&v, &["result", "capabilities", "tools"]), Json::Obj(_)));
}

#[test]
fn tools_list_contains_recall() {
    let v = reply(r#"{"jsonrpc":"2.0","id":2,"method":"tools/list","params":{}}"#);
    assert_eq!(text(at(&v, &["result", "tools", "0", "name"])), "psyrag_recall");
}

#[test]
fn notification_gets_no_reply() {
    let req = parse(r#"{"jsonrpc":"2.0","method":"notifications/initialized"}"#).ok().unwrap();
    assert!(matches!(dispatch(&req, "0.1.0"), Answer::Silence));
}

#[test]
fn unknown_method_is_method_not_found() {
    let v = reply(r#"{"jsonrpc":"2.0","id":9,"method":"nope","params":{}}"#);
    assert_eq!(num(at(&v, &["error", "code"])), "-32601");
}

#[test]
fn tool_calls_are_checked() {
    let v = reply(r#"{"id":3,"method":"tools/call","params":{"name":"rm"}}"#);
    assert_eq!(num(at(&v, &["error", "code"])), "-32602");
    assert_eq!(text(at(&v, &["error", "message"])), "unknown tool \"rm\"");
    let v = reply(r#"{"id":3,"method":"tools/call","params":{"name":"psyrag_recall"}}"#);
    assert_eq!(text(at(&v, &["error", "message"])), "query is required");
    let line = r#"{"id":3,"method":"tools/call","params":{"name":"psyrag_recall","arguments":{"query":"q","k":3}}}"#;
    match dispatch(&parse(line).ok().unwrap(), "0.1.0") {
        Answer::Recall { query, k, depth } => {
            assert_eq!((query.as_str(), k, depth), ("q", 3, 2));
        }
        _ => panic!("no recall"),
    }
    let v = recall_reply(&Some(Json::Num("3".to_string())), "found").0;
    assert_eq!(text(at(&v, &["result", "content", "0", "text"])), "found");
}

#[test]
fn hooks_become_events() {
    let v = parse_json(r#"{"hook_event_name":"PreCompact"}"#).unwrap();
    assert!(matches!(read_hook(&v), Some(Event::Compact)));
    let v = parse_json(r#"{"tool_input":{"path":"/r/a.rs"}}"#).unwrap();
    assert!(matches!(read_hook(&v), Some(Event::Used { path }) if path == "/r/a.rs"));
    assert!(read_hook(&Json::Null).is_none());
}

#[test]
fn last_sleep_roundtrips_and_defaults_zero() {
    assert_eq!(read_last_sleep(None), 0);
    let written = 1_700_000_000_000i64.to_string();
    assert_eq!(read_last_sleep(Some(&written)), 1_700_000_000_000);
    assert_eq!(read_last_sleep(Some(" +5\n")), 5);
    assert_eq!(read_last_sleep(Some("soon")), 0);
}

#[test]
fn sleep_comes_after_a_day() {
    assert_eq!(sleep_due(0, 5), Sleep::Mark);
    assert_eq!(sleep_due(5, 86_400_005), Sleep::Wait);
    assert_eq!(sleep_due(5, 86_400_006), Sleep::Now);
}
