//! A home-automation inventory through the entity format.

use psyrag::entity::{ingest_entities, ingest_entities_mem, parse_entities};
use psyrag::graph::{Op, TemporalGraph};
use psyrag::json::parse_json;
use psyrag::model::{GraphV, OpV, T_MAX};
use psyrag::persist::PersistentGraph;
use psyrag::reach::Direction;
use psyrag::snapshot::{LogV, OpSink};

const T1: i64 = 1_000;
const T2: i64 = 2_000;

fn snapshot(target: &str) -> String {
    r#"[
        { "name": "hub/main", "type": "zigbee/Hub",
          "props": { "fw": "3.1" } },
        { "name": "automation/kitchen-lights", "type": "ha/Automation",
          "props": { "enabled": true } },
        { "name": "automation/alarm", "type": "ha/Automation",
          "props": { "enabled": true } },
        { "name": "sensor/kitchen-motion", "type": "zigbee/MotionSensor",
          "props": { "battery": 87 },
          "edges": [
            { "dst": "hub/main", "kind": "PAIRED_WITH" },
            { "dst": "TARGET", "kind": "TRIGGERS" }
          ] }
    ]"#
    .replace("TARGET", target)
}

#[test]
fn generic_domain_end_to_end() {
    let mut g = TemporalGraph::new();
    let z1 = ingest_entities_mem(&mut g, &snapshot("automation/kitchen-lights"), T1, true).unwrap();
    assert!(z1.is_empty());
    let z2 = ingest_entities_mem(&mut g, &snapshot("automation/alarm"), T2, true).unwrap();
    assert!(z2.is_empty());

    let d = g.diff(T1 + 1, T2 + 1);
    assert!(d
        .edges_removed
        .iter()
        .any(|e| e.contains("TRIGGERS") && e.contains("kitchen-lights")));
    assert!(d
        .edges_added
        .iter()
        .any(|e| e.contains("TRIGGERS") && e.contains("alarm")));
    assert!(d.nodes_removed.is_empty());

    let hits = g.blast_radius("sensor/kitchen-motion", T2 + 1, Direction::Down, 2);
    let names: Vec<&str> = hits.iter().map(|r| r.node.as_str()).collect();
    assert!(names.contains(&"hub/main"));
    assert!(names.contains(&"automation/alarm"));
    assert!(!names.contains(&"automation/kitchen-lights"));

    let then = g.blast_radius("sensor/kitchen-motion", T1 + 1, Direction::Down, 2);
    assert!(then.iter().any(|r| r.node == "automation/kitchen-lights"));
}

#[test]
fn partial_snapshot_is_not_evidence_of_absence() {
    let mut g = TemporalGraph::new();
    ingest_entities_mem(&mut g, &snapshot("automation/kitchen-lights"), T1, true).unwrap();
    let one = r#"[{ "name": "hub/main", "type": "zigbee/Hub", "props": { "fw": "3.2" } }]"#;
    let z = ingest_entities_mem(&mut g, one, T2, false).unwrap();
    assert!(z.is_empty());
    let d = g.diff(T1 + 1, T2 + 1);
    assert_eq!(d.nodes_changed, vec!["hub/main".to_string()]);
    assert!(d.nodes_removed.is_empty());
    assert!(d.edges_removed.is_empty());
}

#[test]
fn generic_entities_persist_through_wal() {
    let log = {
        let mut pg = PersistentGraph::open(b"", "00000000000000aa").unwrap().db;
        pg.ingest_entities(&snapshot("automation/kitchen-lights"), T1, true).unwrap();
        pg.ingest_entities(&snapshot("automation/alarm"), T2, true).unwrap();
        pg.take_pending()
    };
    let pg = PersistentGraph::open(log.as_bytes(), "x").unwrap().db;
    assert_eq!(pg.replay_skipped, 0);
    let d = pg.graph().diff(T1 + 1, T2 + 1);
    assert!(d.edges_removed.iter().any(|e| e.contains("kitchen-lights")));
}

#[test]
fn approx_bytes_tracks_growth() {
    let mut g = TemporalGraph::new();
    let b0 = g.approx_bytes();
    let json = r#"[{"name":"a","type":"t","props":{"blob":"xxxxxxxxxxxxxxxxxxxxxxxxxxxxxxxx"},
             "edges":[{"dst":"b","kind":"REL"}]}]"#;
    ingest_entities_mem(&mut g, json, 0, false).unwrap();
    let b1 = g.approx_bytes();
    assert!(b1 > b0 + 100, "grew with content: {b0} -> {b1}");
    ingest_entities_mem(&mut g, json, 1, false).unwrap();
    assert_eq!(g.approx_bytes(), b1, "idempotent re-observation adds nothing");
}

#[test]
fn the_order_of_properties_changes_nothing() {
    let mut g = TemporalGraph::new();
    let one = r#"[{"name":"a","type":"t","props":{"x":1,"y":{"p":2,"q":[3]}}}]"#;
    let two = r#"[{"name":"a","type":"t","props":{"y":{"q":[3],"p":2},"x":1}}]"#;
    ingest_entities_mem(&mut g, one, T1, false).unwrap();
    let bytes = g.approx_bytes();
    ingest_entities_mem(&mut g, two, T2, false).unwrap();
    assert_eq!(g.approx_bytes(), bytes);
    assert!(g.diff(T1 + 1, T2 + 1).nodes_changed.is_empty());
    let id = g.id_of("a").unwrap();
    let version = g.node(id).version_at(T2).unwrap();
    assert_eq!(version.props_json(), r#"{"x":1,"y":{"p":2,"q":[3]}}"#);
    // Another order of a list is another value.
    let three = r#"[{"name":"a","type":"t","props":{"x":1,"y":{"p":2,"q":[3,3]}}}]"#;
    ingest_entities_mem(&mut g, three, T2 + 5, false).unwrap();
    assert_eq!(g.diff(T2, T2 + 5).nodes_changed, vec!["a".to_string()]);
}

#[test]
fn reconciling_twice_retires_once() {
    let mut g = TemporalGraph::new();
    ingest_entities_mem(&mut g, &snapshot("automation/ghost"), T1, true).unwrap();
    let seen = vec!["hub/main".to_string(), "automation/alarm".to_string()];
    let gone = g.reconcile(&seen, T2);
    assert_eq!(gone, vec!["automation/kitchen-lights", "sensor/kitchen-motion"]);
    let bytes = g.approx_bytes();
    assert_eq!(g.reconcile(&seen, T2), Vec::<String>::new());
    assert_eq!(g.approx_bytes(), bytes);
    // What was only referred to stays; the edges of what is gone end.
    assert_eq!(g.alive_at(T2), vec!["hub/main", "automation/alarm", "automation/ghost"]);
    for eid in 0..g.edge_count() {
        assert_eq!(g.edge(eid as u32).valid_to, T2);
    }
}

#[test]
fn observing_an_edge_gives_its_open_record() {
    let mut g = TemporalGraph::new();
    let a = g.observe_node("a", "t", parse_json("{}").unwrap(), T1);
    let b = g.observe_node("b", "t", parse_json("{}").unwrap(), T1);
    let first = g.observe_edge(a, b, "CALLS", T1);
    assert_eq!(g.observe_edge(a, b, "CALLS", T2), first);
    assert_eq!(g.edge_count(), 1);
    g.retire_edge(a, b, "CALLS", T2);
    assert_eq!(g.observe_edge(a, b, "CALLS", T2 + 1), first + 1);
    assert_eq!(g.edge(first + 1).valid_from, T2 + 1);
    assert_eq!((g.id_of("a"), g.id_of("b")), (Some(a), Some(b)));
    assert_eq!((g.node_name(a), g.node_name(b)), ("a", "b"));
}

/// xorshift64*.
struct Rng(u64);

impl Rng {
    fn next(&mut self) -> u64 {
        let mut x = self.0;
        x ^= x >> 12;
        x ^= x << 25;
        x ^= x >> 27;
        self.0 = x;
        x.wrapping_mul(0x2545_F491_4F6C_DD1D)
    }
    fn below(&mut self, n: usize) -> usize {
        (self.next() % n as u64) as usize
    }
}

#[test]
fn garbage_entity_json_never_panics() {
    let mut rng = Rng(0x1234_5678_9ABC_DEF0);
    let alphabet: &[u8] = b"{}[]\",:xyz01\\n \xc3\xa9";
    for _ in 0..2000 {
        let len = rng.below(200);
        let junk: String = (0..len)
            .map(|_| alphabet[rng.below(alphabet.len())] as char)
            .collect();
        let _ = parse_entities(&junk);
    }
    for j in [
        r#"[{"name":1}]"#,
        r#"[{"type":"t"}]"#,
        r#"[{"name":"a","type":"t","edges":[{"kind":"K"}]}]"#,
        r#"[{"name":"a","type":"t","edges":{"dst":"b"}}]"#,
        r#"{"name":"a","type":"t"}
           {"name":"b""#,
    ] {
        assert!(parse_entities(j).is_err());
    }
}

#[test]
fn an_edge_observed_at_the_end_of_time_has_one_record() {
    let mut g = TemporalGraph::new();
    let a = g.observe_node("a", "t", parse_json("{}").unwrap(), T1);
    let b = g.observe_node("b", "t", parse_json("{}").unwrap(), T1);
    let first = g.observe_edge(a, b, "CALLS", T_MAX);
    assert_eq!(g.observe_edge(a, b, "CALLS", T_MAX), first);
    assert_eq!(g.observe_edge(a, b, "CALLS", T2), first);
    assert_eq!(g.edge_count(), 1);
}

/// A sink that takes some mutations and then answers with an error of its own.
struct Failing {
    g: TemporalGraph,
    left: usize,
}

impl OpSink for Failing {
    fn model(&self) -> GraphV {
        unreachable!()
    }

    fn journal(&self) -> Option<LogV> {
        unreachable!()
    }

    fn sink_wf(&self) -> bool {
        unreachable!()
    }

    fn refuses(&self, _: OpV, _: vstd::seq::Seq<char>) -> bool {
        unreachable!()
    }

    fn steady() -> bool {
        unreachable!()
    }

    fn lemma_journal(&self) {}

    fn lemma_steady(&self, _: OpV, _: vstd::seq::Seq<char>) {}

    fn record(&mut self, op: Op) -> Result<(), String> {
        if self.left == 0 {
            return Err("disk on fire".to_string());
        }
        self.left -= 1;
        self.g.record(op)
    }

    fn graph(&self) -> &TemporalGraph {
        &self.g
    }
}

#[test]
fn the_first_error_of_a_sink_is_returned() {
    let full = snapshot("automation/kitchen-lights");
    let mut whole = TemporalGraph::new();
    ingest_entities(&mut whole, &full, T1, true, None).unwrap();
    // What came before the error stands.
    let mut s = Failing { g: TemporalGraph::new(), left: 2 };
    let e = ingest_entities(&mut s, &full, T1, true, None).unwrap_err();
    assert_eq!(e, "disk on fire");
    assert_eq!(s.g.alive_at(T1), vec!["hub/main", "automation/kitchen-lights"]);
    // A retirement can be refused as well.
    let mut s = Failing { g: whole, left: 1 };
    let one = r#"[{ "name": "hub/main", "type": "zigbee/Hub", "props": { "fw": "3.1" } }]"#;
    let e = ingest_entities(&mut s, one, T2, true, None).unwrap_err();
    assert_eq!(e, "disk on fire");
    assert_eq!(s.g.alive_at(T2).len(), 4);
    let mut s = Failing { g: s.g, left: 10 };
    let gone = ingest_entities(&mut s, one, T2, true, None).unwrap();
    assert_eq!(gone.len(), 3);
    assert_eq!(s.g.alive_at(T2), vec!["hub/main"]);
}
