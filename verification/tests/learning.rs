//! Credit, contradictions, replicas, and changes that are not let through.

use psyrag::access::{refuse, Scope, Verb};
use psyrag::api::{plan_db, DbPlan};
use psyrag::bytes::text_lines;
use psyrag::credit::{CreditWalk, FiredEdge};
use psyrag::gate::{gate_write, outcome_line, settle_write, Gate};
use psyrag::graph::{Op, TemporalGraph};
use psyrag::json::{parse_json, Json};
use psyrag::model::T_MAX;
use psyrag::persist::PersistentGraph;
use psyrag::registry::Inflight;
use psyrag::salience::find_conflicts;
use psyrag::snapshot::record_ops;
use psyrag::standby::{fetch_from, follow, for_standby, plan_shipment, tail_of, Shipment};
use psyrag::store::{stored_line, IdemStore, Stored};

fn fired(eid: u32, u: u32, v: u32) -> FiredEdge {
    FiredEdge { eid, u, v }
}

#[test]
fn credit_flows_back_along_what_fired() {
    // 0 -> 1 -> 3 led to the useful node 3; 0 -> 2 and 2 -> 4 did not.
    let records = vec![fired(10, 0, 1), fired(11, 0, 2), fired(12, 1, 3), fired(13, 2, 4)];
    let mut walk = CreditWalk::start(records, &vec![3], 5);
    assert_eq!(walk.visit_next(), Some(fired(12, 1, 3)));
    assert_eq!(walk.at(), 2);
    assert_eq!(walk.credit(), 0);
    assert_eq!(walk.visit_next(), Some(fired(10, 0, 1)));
    assert_eq!(walk.credit(), 1);
    assert_eq!(walk.visit_next(), None);
    assert_eq!(walk.edges(), &vec![12, 10]);
}

#[test]
fn credit_that_is_withheld_goes_no_further() {
    let records = vec![fired(10, 0, 1), fired(12, 1, 3)];
    let mut walk = CreditWalk::start(records, &vec![3], 4);
    assert_eq!(walk.visit_next(), Some(fired(12, 1, 3)));
    assert_eq!(walk.visit_next(), None);
    assert!(walk.edges().is_empty());
}

#[test]
fn an_edge_is_credited_in_one_place() {
    let records = vec![fired(7, 0, 1), fired(8, 0, 1), fired(7, 0, 1)];
    let mut walk = CreditWalk::start(records, &vec![1, 9], 2);
    walk.visit_next();
    assert_eq!(walk.credit(), 0);
    walk.visit_next();
    assert_eq!(walk.credit(), 1);
    walk.visit_next();
    assert_eq!(walk.credit(), 0);
    assert_eq!(walk.visit_next(), None);
    assert_eq!(walk.edges(), &vec![7, 8]);
}

#[test]
fn resolving_a_contradiction_leaves_the_winner() {
    let mut g = TemporalGraph::new();
    let svc = g.observe_node("svc", "service", Json::Obj(vec![]), 10);
    let a = g.observe_node("a", "team", Json::Obj(vec![]), 10);
    let b = g.observe_node("b", "team", Json::Obj(vec![]), 10);
    let first = g.observe_edge(svc, a, "OWNED_BY", 10);
    let second = g.observe_edge(svc, b, "OWNED_BY", 20);
    let calls = g.observe_edge(svc, a, "CALLS", 20);
    let kinds = vec!["OWNED_BY".to_string()];
    let found = find_conflicts(&g, &kinds, &vec![1, 5, 3], 30);
    assert_eq!(found.len(), 1);
    assert_eq!(found[0].winner_dst, "b");
    let ops = found.into_iter().flat_map(|c| c.superseded).collect();
    record_ops(&mut g, ops).unwrap();
    assert_eq!(g.edge(first).valid_to, 30);
    assert_eq!(g.edge(second).valid_to, T_MAX);
    assert_eq!(g.edge(calls).valid_to, T_MAX);
    assert!(find_conflicts(&g, &kinds, &vec![1, 5, 3], 31).is_empty());
}

#[test]
fn a_replica_copies_the_log() {
    let primary: Vec<u8> = (0..200u8).collect();
    assert_eq!(fetch_from(0), 0);
    assert_eq!(fetch_from(64), 0);
    assert_eq!(fetch_from(100), 36);
    let mut held: Vec<u8> = Vec::new();
    let sent = tail_of(&primary, 0).unwrap();
    held.extend(follow(&held, Some(&sent)).unwrap());
    assert_eq!(held, primary);
    let mut grown = primary.clone();
    grown.extend_from_slice(b"more");
    let sent = tail_of(&grown, fetch_from(held.len()) as u64).unwrap();
    assert_eq!(sent.len(), 68);
    assert_eq!(follow(&held, Some(&sent)), Some(b"more".to_vec()));
}

#[test]
fn a_replica_notices_another_log() {
    let held: Vec<u8> = (0..100u8).collect();
    let mut other = held.clone();
    other[70] = 0;
    let sent = tail_of(&other, 36).unwrap();
    assert_eq!(follow(&held, Some(&sent)), None);
    assert_eq!(tail_of(&vec![1, 2, 3], 36), None);
    assert_eq!(follow(&held, None), None);
    assert_eq!(follow(&held, Some(&held[36..90].to_vec())), None);
}

#[test]
fn logs_are_shipped_to_writers_only() {
    assert!(matches!(
        plan_shipment(&Scope::Full, Verb::Get, "/wal/tail/128"),
        Shipment::Tail { offset: 128 }
    ));
    assert!(matches!(
        plan_shipment(&Scope::Db("x".to_string()), Verb::Get, "/wal/sidecar"),
        Shipment::Sidecar
    ));
    match plan_shipment(&Scope::Read, Verb::Get, "/wal/tail/0") {
        Shipment::Refused(r) => assert_eq!(r.code, 403),
        _ => panic!("a reader gets no log"),
    }
    match plan_shipment(&Scope::Full, Verb::Get, "/wal/tail/x") {
        Shipment::Refused(r) => assert_eq!(r.code, 400),
        _ => panic!("an offset is a number"),
    }
    assert!(matches!(plan_shipment(&Scope::Full, Verb::Post, "/wal/tail/0"), Shipment::Other));
    assert!(matches!(plan_shipment(&Scope::Full, Verb::Get, "/graph"), Shipment::Other));
}

#[test]
fn a_standby_only_reads() {
    let ask = |verb: Verb, route: &str, body: &str| for_standby(plan_db(&Scope::Full, verb, route, body));
    assert!(matches!(ask(Verb::Get, "/stats", ""), DbPlan::Stats));
    let quiet = r#"{"seeds":["a"],"adapt":false}"#;
    assert!(matches!(ask(Verb::Post, "/retrieve", quiet), DbPlan::Retrieve(_)));
    for (route, body) in [("/ingest", "{}"), ("/retrieve", r#"{"seeds":["a"]}"#)] {
        match ask(Verb::Post, route, body) {
            DbPlan::Refused(r) => assert_eq!(r.code, 503),
            _ => panic!("a standby changes nothing"),
        }
    }
}

#[test]
fn quotas_stop_ingestion_only() {
    let kept = IdemStore::in_memory(4, 1000);
    let full = || Some(refuse(507, "full"));
    let mut flying = Inflight::new();
    for route in ["/consolidate", "/checkpoint", "/purge", "/sleep", "/feedback"] {
        let gate = gate_write(None, full(), "POST", route, None, &kept, &mut flying, 0, 0);
        assert!(matches!(gate, Gate::Run { key: None }));
    }
    match gate_write(None, full(), "POST", "/ingest", None, &kept, &mut flying, 0, 0) {
        Gate::Refused(r) => assert_eq!(r.code, 507),
        _ => panic!("there is no room"),
    }
    match gate_write(Some("ENOSPC"), None, "POST", "/sleep", None, &kept, &mut flying, 0, 0) {
        Gate::Refused(r) => assert_eq!(r.code, 503),
        _ => panic!("the log cannot be written"),
    }
}

#[test]
fn a_failed_change_may_be_tried_again() {
    let mut kept = IdemStore::in_memory(4, 1000);
    let mut flying = Inflight::new();
    for _ in 0..2 {
        let gate = gate_write(None, None, "POST", "/ingest", Some("k"), &kept, &mut flying, 5, 5);
        let key = match gate {
            Gate::Run { key: Some(key) } => key,
            _ => panic!("nothing is kept of a failure"),
        };
        assert_eq!(outcome_line(&key, 500, "{}", 5), None);
        settle_write(&mut kept, &mut flying, &key, 500, "{}", 5, true);
    }
    assert_eq!(kept.len(), 0);
}

#[test]
fn the_last_line_of_a_log_is_found_after_a_restart() {
    let of = |key: &str, at: i64| Stored { key: key.to_string(), code: 200, body: key.to_string(), at };
    let mut log = String::from("not a record\n");
    for k in ["a", "b", "c"] {
        log.push_str(&stored_line(&of(k, 100)));
        log.push('\n');
    }
    let s = IdemStore::open(2, 1000, log.as_bytes(), 200);
    assert_eq!(s.get("c", 200), Some((200, "c".to_string())));
    assert_eq!(s.get("a", 200), None);
    // A key that came into the log long ago keeps its place in the order.
    log.push_str(&stored_line(&of("a", 150)));
    log.push('\n');
    let s = IdemStore::open(2, 1000, log.as_bytes(), 200);
    assert_eq!(s.get("a", 200), None);
    let s = IdemStore::open(3, 1000, log.as_bytes(), 200);
    assert_eq!(s.get("a", 200), Some((200, "a".to_string())));
    assert_eq!(s.get("a", 2000), None);
}

#[test]
fn fractions_survive_a_restart() {
    let mut db = PersistentGraph::open(b"", "w1").unwrap().db;
    let props = parse_json(r#"{"big":1e300,"half":0.5,"n":-7}"#).unwrap();
    let op = Op::ObserveNode {
        name: "a".to_string(),
        asset_type: "t".to_string(),
        props,
        ts: 5,
        origin: None,
    };
    db.record_op(op).unwrap();
    let log = db.take_pending();
    let again = PersistentGraph::open(log.as_bytes(), "w2").unwrap().db;
    let id = again.graph().id_of("a").unwrap();
    let version = again.graph().node(id).version_at(5).unwrap();
    assert_eq!(version.props_json(), r#"{"big":1e+300,"half":0.5,"n":-7}"#);
    assert_eq!(again.wal_id(), Some("w1"));
}

#[test]
fn a_damaged_line_of_a_log_is_passed_over() {
    let of = |key: &str| Stored { key: key.to_string(), code: 200, body: "\u{e9}".to_string(), at: 1 };
    let mut log = Vec::new();
    log.extend_from_slice(stored_line(&of("a")).as_bytes());
    log.extend_from_slice(&[b'\n', b'{', 0xC3, b'\n']);
    log.extend_from_slice(stored_line(&of("b")).as_bytes());
    let s = IdemStore::open(4, 1000, &log, 5);
    assert_eq!(s.len(), 2);
    assert_eq!(s.get("b", 5), Some((200, "\u{e9}".to_string())));
    assert_eq!(text_lines(b"\xFF\na\n\xC3\n\n"), "a\n\n");
    assert_eq!(text_lines(b"\xFF"), "");
    assert_eq!(text_lines("\u{e9}\r\nx".as_bytes()), "\u{e9}\r\nx");
}
