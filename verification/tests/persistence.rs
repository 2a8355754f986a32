//! A journaled graph and its log, with the log held as text.

use psyrag::compact::CompactReport;
use psyrag::graph::Op;
use psyrag::json::Json;
use psyrag::persist::{header_line, PersistentGraph};
use psyrag::reach::Direction;
use psyrag::wal::{replay_readonly, verify_wal, ReplayError};

const T1: i64 = 1_000;
const T2: i64 = 2_000;

const API: &str = "//run.googleapis.com/projects/p/locations/r/services/api";
const VPC: &str = "//compute.googleapis.com/projects/p/global/networks/vpc";

/// Opens a log and repairs it, as a process that owns the file does.
fn open(file: &mut String) -> Result<PersistentGraph, String> {
    match PersistentGraph::open(file.as_bytes(), "fresh") {
        Ok(o) => {
            file.truncate(o.keep);
            let mut db = o.db;
            file.push_str(&db.take_pending());
            Ok(db)
        }
        Err(e) => Err(e.message("mem.wal")),
    }
}

fn flush(db: &mut PersistentGraph, file: &mut String) {
    file.push_str(&db.take_pending());
}

fn observe(name: &str, props: Json, ts: i64) -> Op {
    Op::ObserveNode {
        name: name.to_string(),
        asset_type: "t/x".to_string(),
        props,
        ts,
        origin: None,
    }
}

fn mini_snapshot(image: &str, subnet: &str) -> String {
    format!(
        r#"[
        {{
            "name": "//compute.googleapis.com/projects/p/global/networks/vpc",
            "assetType": "compute.googleapis.com/Network",
            "ancestors": ["projects/p"],
            "resource": {{ "data": {{ "name": "vpc" }} }}
        }},
        {{
            "name": "//compute.googleapis.com/projects/p/regions/r/subnetworks/{subnet}",
            "assetType": "compute.googleapis.com/Subnetwork",
            "ancestors": ["projects/p"],
            "resource": {{ "data": {{
                "network": "https://www.googleapis.com/compute/v1/projects/p/global/networks/vpc"
            }} }}
        }},
        {{
            "name": "//run.googleapis.com/projects/p/locations/r/services/api",
            "assetType": "run.googleapis.com/Service",
            "ancestors": ["projects/p"],
            "resource": {{ "data": {{
                "image": "{image}",
                "subnet": "//compute.googleapis.com/projects/p/regions/r/subnetworks/{subnet}"
            }} }}
        }}
    ]"#
    )
}

#[test]
fn wal_roundtrip_preserves_history() {
    let mut file = String::new();
    {
        let mut pg = open(&mut file).unwrap();
        let z1 = pg.ingest_cai_snapshot(&mini_snapshot("img:v1", "subnet-a"), T1).unwrap();
        assert!(z1.is_empty());
        let z2 = pg.ingest_cai_snapshot(&mini_snapshot("img:v2", "subnet-b"), T2).unwrap();
        assert_eq!(z2.len(), 1);
        flush(&mut pg, &mut file);
    }
    let pg = open(&mut file).unwrap();
    assert_eq!(pg.replay_skipped, 0);
    let g = pg.graph();
    let d = g.diff(T1 + 1, T2 + 1);
    assert!(d.nodes_changed.contains(&API.to_string()));
    assert!(d.nodes_removed.iter().any(|n| n.contains("subnet-a")));
    assert!(d.nodes_added.iter().any(|n| n.contains("subnet-b")));
    let at_t1 = g.blast_radius(API, T1 + 1, Direction::Down, 5);
    assert!(at_t1.iter().any(|r| r.node.contains("subnet-a")));
    let at_t2 = g.blast_radius(API, T2 + 1, Direction::Down, 5);
    assert!(at_t2.iter().any(|r| r.node.contains("subnet-b")));
    assert!(at_t2.iter().any(|r| r.node == VPC));
}

#[test]
fn torn_tail_is_tolerated() {
    let mut file = String::new();
    {
        let mut pg = open(&mut file).unwrap();
        let props = Json::Obj(vec![("k".to_string(), Json::Num("1".to_string()))]);
        pg.record_op(observe("a", props, T1)).unwrap();
        flush(&mut pg, &mut file);
    }
    let whole = file.clone();
    file.push_str("{\"op\":\"observe_node\",\"name\":\"b\",\"asset_t");
    {
        let pg = open(&mut file).unwrap();
        assert_eq!(pg.replay_skipped, 1);
        assert!(pg.graph().id_of("a").is_some());
        assert!(pg.graph().id_of("b").is_none());
    }
    assert_eq!(file, whole);
    let pg = open(&mut file).unwrap();
    assert_eq!(pg.replay_skipped, 0);
    assert!(pg.graph().id_of("a").is_some());
}

#[test]
fn mid_file_corruption_is_a_hard_error() {
    let mut file = String::new();
    {
        let mut pg = open(&mut file).unwrap();
        for n in ["a", "b", "c"] {
            pg.record_op(observe(n, Json::Null, T1)).unwrap();
        }
        flush(&mut pg, &mut file);
    }
    let pos = file.find("\"b\"").expect("record b present");
    file.replace_range(pos + 1..pos + 2, "X");
    let err = match open(&mut file) {
        Ok(_) => panic!("mid-file corruption must not replay"),
        Err(e) => e,
    };
    assert!(err.contains("corrupted"), "unexpected error: {err}");
    assert!(err.contains("line 3"));
}

fn report_of(pg: &mut PersistentGraph, file: &mut String) -> CompactReport {
    let before = file.len() as u64;
    let c = pg.compact("fresh");
    let archive = Some("mem.wal.archive-1".to_string());
    let report = c.report(before, archive);
    *file = c.text.clone();
    pg.adopt(&c);
    report
}

#[test]
fn compaction_preserves_open_state_and_drops_history() {
    let mut file = String::new();
    let (report, live_nodes_before, live_edges_before) = {
        let mut pg = open(&mut file).unwrap();
        pg.ingest_cai_snapshot(&mini_snapshot("img:v1", "subnet-a"), T1).unwrap();
        pg.ingest_cai_snapshot(&mini_snapshot("img:v2", "subnet-b"), T2).unwrap();
        flush(&mut pg, &mut file);
        let g = pg.graph();
        let live_nodes = g.alive_at(T2 + 1).len();
        let live_edges =
            (0..g.edge_count()).filter(|&e| g.edge(e as u32).alive_at(T2 + 1)).count();
        let report = report_of(&mut pg, &mut file);
        assert_eq!(pg.lsn(), report.ops_written as u64);
        pg.record_op(observe("post-compact", Json::Null, T2 + 10)).unwrap();
        flush(&mut pg, &mut file);
        (report, live_nodes, live_edges)
    };
    assert!(report.bytes_after < report.bytes_before, "log shrank: {report:?}");
    assert!(report.archive.is_some());

    let pg = open(&mut file).unwrap();
    assert_eq!(pg.replay_skipped, 0);
    let g = pg.graph();
    assert_eq!(g.alive_at(T2 + 1).len(), live_nodes_before);
    let live_edges_after =
        (0..g.edge_count()).filter(|&e| g.edge(e as u32).alive_at(T2 + 1)).count();
    assert_eq!(live_edges_after, live_edges_before);
    assert!(g
        .blast_radius(API, T2 + 1, Direction::Down, 5)
        .iter()
        .any(|r| r.node.contains("subnet-b")));
    assert!(g
        .id_of("//compute.googleapis.com/projects/p/regions/r/subnetworks/subnet-a")
        .is_none());
    assert!(g.id_of("post-compact").is_some());
}

#[test]
fn legacy_v0_wal_replays_and_mixes_with_framed_appends() {
    let mut file = String::from(concat_lines());
    {
        let mut pg = open(&mut file).unwrap();
        assert_eq!(pg.replay_skipped, 0);
        assert!(pg.graph().id_of("old").is_some());
        assert!(pg.graph().id_of("tgt").is_some());
        pg.record_op(observe("new", Json::Null, T2)).unwrap();
        flush(&mut pg, &mut file);
    }
    let pg = open(&mut file).unwrap();
    assert_eq!(pg.replay_skipped, 0);
    assert!(pg.graph().id_of("old").is_some());
    assert!(pg.graph().id_of("new").is_some());
}

fn concat_lines() -> &'static str {
    "{\"op\":\"observe_node\",\"name\":\"old\",\"asset_type\":\"t/x\",\"props\":null,\"ts\":1000}\n{\"op\":\"observe_edge\",\"src\":\"old\",\"dst\":\"tgt\",\"kind\":\"CALLS\",\"ts\":1000}\n"
}

#[test]
fn approx_bytes_shrinks_after_purge() {
    let mut file = String::new();
    let mut pg = open(&mut file).unwrap();
    pg.ingest_entities_from(
        r#"[{"name":"big","type":"t","origin":"user:x",
             "props":{"blob":"yyyyyyyyyyyyyyyyyyyyyyyyyyyyyyyyyyyyyyyyyyyyyyyy"},
             "edges":[{"dst":"z","kind":"REL"}]},
            {"name":"keep","type":"t","origin":"user:y"}]"#,
        0,
        false,
        None,
    )
    .unwrap();
    let before = pg.graph().approx_bytes();
    let p = pg.purge("user:x", "fresh").unwrap();
    assert_eq!(p.nodes_dropped, 2);
    assert_eq!(p.edges_dropped, 1);
    assert!(!p.log.text.contains("user:x"));
    assert!(!p.log.text.contains("big"));
    pg.adopt_purge(p);
    let after = pg.graph().approx_bytes();
    assert!(after < before, "purge rebuild shrinks the estimate: {before} -> {after}");
    assert!(pg.graph().id_of("keep").is_some());
}

/// Fixed seeds keep failures reproducible.
struct Rng(u64);

impl Rng {
    fn next(&mut self) -> u64 {
        let mut x = self.0;
        x ^= x >> 12;
        x ^= x << 25;
        x ^= x >> 27;
        self.0 = x;
        x.wrapping_mul(0x2545_F491_4F6C_DD1D)
    }

    fn below(&mut self, n: usize) -> usize {
        (self.next() % n as u64) as usize
    }
}

fn valid_wal() -> String {
    let mut file = String::new();
    let mut pg = open(&mut file).unwrap();
    pg.ingest_entities_from(
        r#"[{"name":"svc/api","type":"t","origin":"u:1","props":{"k":[1,2,3]},
             "edges":[{"dst":"db","kind":"CALLS"},{"dst":"cache","kind":"CALLS"}]},
            {"name":"db","type":"t","edges":[{"dst":"vol","kind":"USES"}]}]"#,
        1000,
        false,
        None,
    )
    .unwrap();
    flush(&mut pg, &mut file);
    file
}

#[test]
fn mutated_wals_never_panic_and_never_silently_misreplay() {
    let base = valid_wal().into_bytes();
    let mut rng = Rng(0xDEAD_BEEF_CAFE_F00D);
    for _ in 0..600 {
        let mut bytes = base.clone();
        for _ in 0..(1 + rng.below(3)) {
            if bytes.is_empty() {
                break;
            }
            let pos = rng.below(bytes.len());
            match rng.below(3) {
                0 => bytes[pos] ^= (1 + rng.below(255)) as u8,
                1 => {
                    bytes.remove(pos);
                }
                _ => bytes.insert(pos, (rng.next() & 0xFF) as u8),
            }
        }
        let _ = verify_wal(&bytes);
        match PersistentGraph::open(&bytes, "fresh") {
            Ok(o) => {
                let g = o.db.graph();
                let _ = g.alive_at(2000).len();
                for id in 0..g.node_count() {
                    let _ = g.node_origin_at(id as u32, 2000);
                }
            }
            Err(e) => assert!(!e.message("x").is_empty()),
        }
    }
}

#[test]
fn randomized_op_roundtrip_through_framing() {
    let mut rng = Rng(0x0BAD_F00D_0BAD_F00D);
    let weird = [
        "a\"b",
        "line\nbreak",
        "uni\u{00e9}\u{4e2d}",
        "  spaces  ",
        "\\backslash\\",
        "#hash:v1 id=x",
        "12345678:fakeframe",
    ];
    let mut file = String::new();
    let mut expected: Vec<(String, String)> = Vec::new();
    {
        let mut pg = open(&mut file).unwrap();
        for i in 0..200i64 {
            let name = format!("{}-{i}", weird[rng.below(weird.len())]);
            let origin = if rng.below(2) == 0 {
                Some(weird[rng.below(weird.len())].to_string())
            } else {
                None
            };
            let props = Json::Obj(vec![
                ("i".to_string(), Json::Num(i.to_string())),
                ("s".to_string(), Json::Str(weird[rng.below(weird.len())].to_string())),
            ]);
            pg.record_op(Op::ObserveNode {
                name: name.clone(),
                asset_type: "t/x".into(),
                props,
                ts: 1000 + i,
                origin: origin.clone(),
            })
            .unwrap();
            expected.push((name, origin.unwrap_or_default()));
        }
        flush(&mut pg, &mut file);
    }
    let pg = open(&mut file).unwrap();
    assert_eq!(pg.replay_skipped, 0);
    let g = pg.graph();
    for (name, origin) in &expected {
        let id = g.id_of(name).unwrap_or_else(|| panic!("lost node {name:?}"));
        assert_eq!(g.node_origin_at(id, i64::MAX - 1), origin.as_str(), "origin for {name:?}");
    }
}

#[test]
fn v0_legacy_wal_replays() {
    let mut file = String::from(
        "{\"op\":\"observe_edge\",\"src\":\"x\",\"dst\":\"y\",\"kind\":\"CALLS\",\"ts\":1000}\n{\"op\":\"observe_edge\",\"src\":\"y\",\"dst\":\"z\",\"kind\":\"REFS\",\"ts\":1000}\n",
    );
    let pg = open(&mut file).unwrap();
    assert_eq!(pg.replay_skipped, 0);
    let g = pg.graph();
    assert!(g.id_of("x").is_some() && g.id_of("y").is_some() && g.id_of("z").is_some());
    assert_eq!(g.edge_count(), 2);
}

fn edge(src: &str, dst: &str, kind: &str) -> Op {
    Op::ObserveEdge {
        src: src.to_string(),
        dst: dst.to_string(),
        kind: kind.to_string(),
        ts: 1000,
        origin: None,
    }
}

#[test]
fn v1_framed_wal_replays_and_verifies() {
    let mut file = String::new();
    {
        let mut pg = open(&mut file).unwrap();
        pg.record_op(edge("x", "y", "CALLS")).unwrap();
        pg.record_op(edge("y", "z", "REFS")).unwrap();
        flush(&mut pg, &mut file);
    }
    let rep = verify_wal(file.as_bytes());
    assert!(rep.corrupt.is_none() && !rep.torn_tail);
    assert!(rep.framed > 0 && rep.legacy == 0);
    assert!(rep.wal_id.is_some());
    let pg = open(&mut file).unwrap();
    assert_eq!(pg.replay_skipped, 0);
    assert_eq!(pg.wal_id().map(String::from), rep.wal_id);
    assert_eq!(pg.lsn(), rep.records as u64);
    assert_eq!(pg.graph().edge_count(), 2);
}

#[test]
fn future_version_wal_refuses_loudly() {
    let mut file = String::from("#psyrag-wal:v9 id=abc\n");
    let err = match open(&mut file) {
        Ok(_) => panic!("a future-format WAL must refuse to open"),
        Err(e) => e,
    };
    assert!(err.contains("newer"), "unexpected error: {err}");
    assert!(matches!(
        PersistentGraph::open(file.as_bytes(), "fresh"),
        Err(ReplayError::Newer { version: 9 })
    ));
}

#[test]
fn a_fresh_log_gets_a_header() {
    let mut file = String::new();
    let pg = open(&mut file).unwrap();
    assert_eq!(file, "#psyrag-wal:v1 id=fresh\n");
    assert_eq!(file, header_line("fresh"));
    assert_eq!(pg.wal_id(), Some("fresh"));
    assert_eq!(pg.lsn(), 0);
}

#[test]
fn a_last_record_without_its_line_feed_gets_it() {
    let mut file = valid_wal();
    let whole = file.clone();
    file.pop();
    let pg = open(&mut file).unwrap();
    assert_eq!(pg.replay_skipped, 0);
    assert_eq!(file, whole);
}

#[test]
fn readonly_replay_gives_the_same_graph() {
    let file = valid_wal();
    let g = match replay_readonly(file.as_bytes()) {
        Ok(g) => g,
        Err(_) => panic!("sound log"),
    };
    assert_eq!(g.edge_count(), 3);
    assert!(g.id_of("vol").is_some());
}

#[test]
fn verification_names_the_damaged_line() {
    let mut file = valid_wal();
    let pos = file.find("svc/api").unwrap();
    file.replace_range(pos..pos + 1, "X");
    let rep = verify_wal(file.as_bytes());
    assert!(matches!(rep.corrupt, Some((2, _))));
    let mut torn = valid_wal();
    torn.push_str("00000000:{");
    let rep = verify_wal(torn.as_bytes());
    assert!(rep.torn_tail && rep.corrupt.is_none());
}

/// A log whose one whole record is for a, and its length.
fn log_of_a() -> (Vec<u8>, usize) {
    let mut file = String::new();
    let mut pg = open(&mut file).unwrap();
    pg.record_op(edge("a", "b", "CALLS")).unwrap();
    flush(&mut pg, &mut file);
    let n = file.len();
    (file.into_bytes(), n)
}

#[test]
fn a_record_cut_inside_a_character_is_dropped() {
    let (mut log, whole) = log_of_a();
    // The record was for a node whose name begins with a two-byte character.
    log.extend_from_slice(b"00000000:{\"op\":\"retire_node\",\"name\":\"");
    log.push(0xC3);
    let o = match PersistentGraph::open(&log, "fresh") {
        Ok(o) => o,
        Err(e) => panic!("{}", e.message("mem.wal")),
    };
    assert_eq!(o.db.replay_skipped, 1);
    assert_eq!(o.db.lsn(), 1);
    assert_eq!(o.keep, whole);
    assert_eq!(o.db.graph().edge_count(), 1);
    let rep = verify_wal(&log);
    assert!(rep.torn_tail && rep.corrupt.is_none());
    assert_eq!(rep.records, 1);
    assert!(replay_readonly(&log).is_ok());
}

#[test]
fn a_line_that_is_no_text_before_another_is_damage() {
    let (mut log, _) = log_of_a();
    log.extend_from_slice(&[0xFF, 0xFE, b'\n']);
    log.extend_from_slice(b"\n \n");
    assert!(PersistentGraph::open(&log, "fresh").is_ok());
    log.extend_from_slice(b"{\"name\":\"a\",\"op\":\"retire_node\",\"ts\":1}\n");
    match PersistentGraph::open(&log, "fresh") {
        Err(ReplayError::Corrupt { .. }) => {}
        _ => panic!("data follows the damage"),
    }
    assert!(verify_wal(&log).corrupt.is_some());
    let e = replay_readonly(&log).err().unwrap();
    assert_eq!(e.message("mem.wal"), "stream did not contain valid UTF-8");
}

#[test]
fn a_legacy_line_is_no_framed_one() {
    let log = b"{ \"name\":\"a\",\"op\":\"retire_node\",\"ts\":1}\n";
    let rep = verify_wal(log);
    assert_eq!((rep.records, rep.framed, rep.legacy), (1, 0, 1));
    let log = b"{\"name\":\"a\",\"op\":\"retire_node\",\"ts\":1}\r\n";
    let rep = verify_wal(log);
    assert_eq!((rep.records, rep.framed, rep.legacy), (1, 0, 1));
}

#[test]
fn names_outside_ascii_survive_a_restart() {
    let mut file = String::new();
    let mut pg = open(&mut file).unwrap();
    pg.record_op(edge("\u{e9}\u{4e2d}", "\u{1f600}", "CALLS")).unwrap();
    flush(&mut pg, &mut file);
    let pg = open(&mut file).unwrap();
    assert_eq!(pg.replay_skipped, 0);
    assert!(pg.graph().id_of("\u{e9}\u{4e2d}").is_some());
    assert!(pg.graph().id_of("\u{1f600}").is_some());
}
