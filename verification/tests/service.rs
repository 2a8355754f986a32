//! The command line, access to databases, and what requests lead to.

use psyrag::access::{auth, ct_eq, refuse, route, split_route, valid_db_name, Routed, Scope, Tokens, Verb};
use psyrag::api::{
    announced_too_large, credit_of, error_body, failure, open_path, path_of, plan_db, plan_write,
    read_feedback, target_of, too_large, too_much_feedback, CreditKind, CreditTarget, DbPlan,
    Public, Stage, WritePlan,
};
use psyrag::args::Args;
use psyrag::cli::{
    credit_spec, db_paths, edge_spec, parse_every, plan, plan_credit, plan_serve, Command,
    CreditPlan, DbPaths, Environment,
};
use psyrag::credit::Spread;
use psyrag::entity::ingest_entities_mem;
use psyrag::export::{edge_line, list_edges, load_sh, nodes_jsonl, queries_gql, schema_sql};
use psyrag::gate::{gate_write, needs_room, outcome_line, settle_write, Gate};
use psyrag::graph::TemporalGraph;
use psyrag::http::{get_request, head_len, status_of};
use psyrag::json::parse_json;
use psyrag::pages::{
    db_row_json, graph_page, ingest_body, match_body, match_by_tokens, match_substrings,
    metrics_page, touch_body, DbState, Gauges,
};
use psyrag::paths::{check_socket, resolve, Ancestor};
use psyrag::prom::RequestMetrics;
use psyrag::recall::surfaced_here;
use psyrag::registry;
use psyrag::registry::{
    check_quota, engine_bytes, evict_until, list_names, make_room, open_bytes, over_budget, shed,
    takes_tasks, task_failed, task_name, FeedbackWindow, Inflight, Lookup, OpenDb, Schedule, Task,
};
use psyrag::store::{
    now_ms, parse_stored, stored_line, wedge, IdemStore, Stored, TraceStore,
};

fn argv(words: &[&str]) -> Args {
    Args::parse(words.iter().map(|s| s.to_string()).collect())
}

fn strings(l: &[&str]) -> Vec<String> {
    l.iter().map(|s| s.to_string()).collect()
}

// -- Arguments ---------------------------------------------------------------

#[test]
fn flags_take_values_or_stand_alone() {
    let a = argv(&["retrieve", "--seed", "x", "--seed=y", "--adapt", "--ts", "-5", "--top-k", "3"]);
    assert_eq!(a.subcommand(), Some("retrieve"));
    assert_eq!(a.get_all("seed"), strings(&["x", "y"]));
    assert_eq!(a.get("seed"), Some("y"));
    assert!(a.has("adapt"));
    assert!(!a.has("trace"));
    assert_eq!(a.get_i64("ts"), Some(-5));
    assert_eq!(a.get_usize("top-k"), Some(3));
    assert_eq!(a.get_u32("depth"), None);
    assert_eq!(a.get_or("fan", "0.9"), "0.9");
}

#[test]
fn an_override_wins() {
    let a = argv(&["mcp", "--wal", "a", "--db", "b"]).with_override("wal", "c");
    assert_eq!(a.get("wal"), Some("c"));
    assert_eq!(a.get("db"), Some("b"));
}

#[test]
fn commands_are_planned() {
    assert!(matches!(plan(&argv(&[])), Ok(Command::Usage)));
    assert!(matches!(plan(&argv(&["stats"])), Ok(Command::Stats)));
    match plan(&argv(&["ingest", "--file", "f.json", "--reconcile"])) {
        Ok(Command::Ingest { file, reconcile, cai, .. }) => {
            assert_eq!(file, "f.json");
            assert!(reconcile && !cai);
        }
        _ => panic!("an ingest"),
    }
    assert_eq!(plan(&argv(&["ingest"])).err().unwrap(), "--file required");
    assert_eq!(plan(&argv(&["purge"])).err().unwrap(), "--origin PREFIX required");
    assert_eq!(
        plan(&argv(&["retrieve"])).err().unwrap(),
        "at least one --seed required"
    );
    assert_eq!(
        plan(&argv(&["db", "create", "Bad", "--data-dir", "d"])).err().unwrap(),
        "invalid db name 'Bad' (want [a-z0-9_-]{1,64})"
    );
    assert!(plan(&argv(&["dance"])).err().unwrap().starts_with("unknown command 'dance'\n"));
    match plan(&argv(&["monitor"])) {
        Ok(Command::Monitor { url, interval_ms }) => {
            assert_eq!(url, "http://127.0.0.1:8080");
            assert_eq!(interval_ms, 500);
        }
        _ => panic!("a monitor"),
    }
}

#[test]
fn credit_is_graded_episodic_or_explicit() {
    let a = argv(&["feedback", "--used", "n", "--used", "m"]);
    match plan_credit(&a, false) {
        CreditPlan::Used { nodes } => assert_eq!(nodes, strings(&["n", "m"])),
        _ => panic!("explicit"),
    }
    let a = argv(&["feedback", "--reward", "0.5", "--spread", "uniform"]);
    assert!(matches!(plan_credit(&a, true), CreditPlan::Episodic { spread: Spread::Uniform }));
    let (n, s) = credit_spec("node,0.5").unwrap();
    assert_eq!((n.as_str(), s.as_str()), ("node", "0.5"));
    assert!(credit_spec("node").is_err());
    let e = edge_spec("a,b,K,1").unwrap();
    assert_eq!((e.src.as_str(), e.dst.as_str(), e.kind.as_str(), e.r.as_str()), ("a", "b", "K", "1"));
    assert_eq!(edge_spec("a,b").err().unwrap(), "bad --edge 'a,b', want src,dst,kind,R");
}

#[test]
fn databases_are_located() {
    match db_paths(&argv(&["stats", "--wal", "m.wal"])) {
        Ok(DbPaths::Files { wal, sidecar }) => {
            assert_eq!((wal.as_str(), sidecar.as_str()), ("m.wal", "m.wal.psyrag.json"));
        }
        _ => panic!("files"),
    }
    match db_paths(&argv(&["stats", "--data-dir", "d"])) {
        Ok(DbPaths::Dir { root, db }) => assert_eq!((root.as_str(), db.as_str()), ("d", "default")),
        _ => panic!("a directory"),
    }
    assert!(db_paths(&argv(&["stats", "--data-dir", "d", "--db", "A"])).is_err());
    assert!(db_paths(&argv(&["stats", "--db", "a"])).is_err());
}

#[test]
fn intervals_have_units() {
    assert_eq!(parse_every("90s"), Ok(90));
    assert_eq!(parse_every("30m"), Ok(1800));
    assert_eq!(parse_every("24h"), Ok(86_400));
    assert_eq!(parse_every("2d"), Ok(172_800));
    assert_eq!(parse_every("7"), Ok(7));
    assert_eq!(parse_every("0s").err().unwrap(), "interval '0s' must be > 0");
    assert_eq!(
        parse_every("soon").err().unwrap(),
        "bad interval 'soon' (want e.g. 90s, 30m, 24h)"
    );
    assert!(parse_every("99999999999999999999").is_err());
}

fn environment() -> Environment {
    Environment { token: Some("t".into()), read_token: None, primary_token: None, workers: 4 }
}

#[test]
fn servers_are_configured() {
    let o = plan_serve(&argv(&["serve", "--data-dir", "d", "--sleep-every", "24h"]), &environment())
        .ok()
        .unwrap();
    assert_eq!(o.addr, "127.0.0.1:8080");
    assert_eq!(o.data_dir.as_deref(), Some("d"));
    assert_eq!(o.tokens.token.as_deref(), Some("t"));
    assert_eq!(o.workers, 4);
    assert_eq!(o.sleep_every, Some(86_400));
    assert_eq!(o.consolidate_every, None);
    assert!(plan_serve(&argv(&["serve", "--sleep-every", "x"]), &environment()).is_err());
}

// -- Access ------------------------------------------------------------------

fn tokens() -> Tokens {
    Tokens {
        token: Some("full".into()),
        read_token: Some("read".into()),
        db_tokens: vec![("one".to_string(), "mine".to_string())],
    }
}

#[test]
fn tokens_grant_scopes() {
    let t = tokens();
    assert!(matches!(auth(&t, Some("Bearer full")), Ok(Scope::Full)));
    assert!(matches!(auth(&t, Some("Bearer read")), Ok(Scope::Read)));
    match auth(&t, Some("Bearer mine")) {
        Ok(Scope::Db(n)) => assert_eq!(n, "one"),
        _ => panic!("a database"),
    }
    let r = auth(&t, Some("Bearer no")).err().unwrap();
    assert_eq!((r.code, r.message.as_str()), (401, "invalid token"));
    let r = auth(&t, None).err().unwrap();
    assert_eq!((r.code, r.message.as_str()), (401, "missing Authorization: Bearer token"));
    let open = Tokens { token: None, read_token: None, db_tokens: vec![] };
    assert!(matches!(auth(&open, None), Ok(Scope::Full)));
    assert!(ct_eq("abc", "abc") && !ct_eq("abc", "abd") && !ct_eq("abc", "ab"));
}

#[test]
fn names_of_databases_are_plain() {
    assert!(valid_db_name("a-b_9"));
    assert!(!valid_db_name("") && !valid_db_name("A") && !valid_db_name("a/b"));
    assert!(!valid_db_name(&"a".repeat(65)));
}

#[test]
fn routes_are_split() {
    assert_eq!(split_route("/stats"), ("default".to_string(), "/stats".to_string()));
    assert_eq!(split_route("/db/x/stats/"), ("x".to_string(), "/stats".to_string()));
    assert_eq!(split_route("/db/x"), ("x".to_string(), String::new()));
    assert_eq!(split_route("/db/x/"), ("x".to_string(), String::new()));
}

#[test]
fn a_database_token_is_confined() {
    let s = Scope::Db("one".to_string());
    match route(&s, Verb::Get, "/dbs", true, true) {
        Routed::Refused(r) => assert_eq!((r.code, r.message.as_str()), (403, "this token is database-scoped")),
        _ => panic!("refused"),
    }
    match route(&s, Verb::Get, "/db/two/stats", true, true) {
        Routed::Refused(r) => {
            assert_eq!((r.code, r.message.as_str()), (403, "this token is scoped to database 'one'"));
        }
        _ => panic!("refused"),
    }
    match route(&s, Verb::Get, "/db/one/stats", true, true) {
        Routed::Db { name, route } => assert_eq!((name.as_str(), route.as_str()), ("one", "/stats")),
        _ => panic!("its own"),
    }
}

#[test]
fn databases_are_made_and_dropped() {
    assert!(matches!(
        route(&Scope::Full, Verb::Post, "/db/n", true, true),
        Routed::Create { .. }
    ));
    assert!(matches!(
        route(&Scope::Full, Verb::Delete, "/db/n", true, true),
        Routed::Drop { .. }
    ));
    match route(&Scope::Full, Verb::Delete, "/db/n", false, true) {
        Routed::Refused(r) => assert_eq!(r.code, 403),
        _ => panic!("not without a token"),
    }
    match route(&Scope::Read, Verb::Post, "/db/n", true, true) {
        Routed::Refused(r) => assert_eq!((r.code, r.message.as_str()), (403, "write scope required")),
        _ => panic!("not by a reader"),
    }
    match route(&Scope::Full, Verb::Get, "/db/n", true, true) {
        Routed::Refused(r) => assert_eq!(r.code, 405),
        _ => panic!("no such verb"),
    }
}

// -- Requests ----------------------------------------------------------------

#[test]
fn reads_are_planned() {
    let f = Scope::Full;
    assert!(matches!(plan_db(&f, Verb::Get, "/stats", ""), DbPlan::Stats));
    assert!(matches!(plan_db(&f, Verb::Get, "/trace/17", ""), DbPlan::Trace(Some(17))));
    assert!(matches!(plan_db(&f, Verb::Get, "/trace/x", ""), DbPlan::Trace(None)));
    match plan_db(&f, Verb::Post, "/match", r#"{"tokens":["a"]}"#) {
        DbPlan::Match(m) => {
            assert_eq!(m.tokens, strings(&["a"]));
            assert_eq!(m.limit, 16);
            assert!(!m.substring);
        }
        _ => panic!("a match"),
    }
    match plan_db(&f, Verb::Post, "/retrieve", r#"{"seeds":["a"],"top_k":3,"adapt":false}"#) {
        DbPlan::Retrieve(r) => {
            assert_eq!(r.seeds, strings(&["a"]));
            assert_eq!(r.top_k, 3);
            assert!(!r.adapt && !r.trace && !r.explain);
            assert_eq!(r.depth, None);
        }
        _ => panic!("a retrieval"),
    }
    match plan_db(&f, Verb::Post, "/match", "{") {
        DbPlan::Refused(r) => assert_eq!(r.code, 400),
        _ => panic!("a bad body"),
    }
    assert!(matches!(plan_db(&f, Verb::Post, "/ingest", ""), DbPlan::Write));
}

#[test]
fn a_reader_changes_nothing() {
    let r = Scope::Read;
    match plan_db(&r, Verb::Post, "/retrieve", r#"{"seeds":["a"]}"#) {
        DbPlan::Refused(x) => assert_eq!(x.code, 403),
        _ => panic!("adapting is a change"),
    }
    match plan_db(&r, Verb::Post, "/ingest", "") {
        DbPlan::Refused(x) => assert_eq!((x.code, x.message.as_str()), (403, "write scope required")),
        _ => panic!("refused"),
    }
}

#[test]
fn writes_are_planned() {
    match plan_write(Verb::Post, "/ingest", r#"{"json":"[]","reconcile":true,"ts":5}"#, true) {
        WritePlan::Ingest(r) => {
            assert_eq!(r.json, "[]");
            assert!(r.reconcile && !r.cai);
            assert_eq!(r.ts, Some(5));
        }
        _ => panic!("an ingest"),
    }
    match plan_write(Verb::Post, "/ingest", r#"{"json":"{"}"#, true) {
        WritePlan::Refused(r) => {
            assert_eq!(r.code, 400);
            assert!(r.message.starts_with("bad entities: "));
        }
        _ => panic!("bad entities"),
    }
    match plan_write(Verb::Post, "/touch", r#"{"edges":[["a","b","K",1.5]]}"#, true) {
        WritePlan::Touch { edges, ts } => {
            assert_eq!(edges.len(), 1);
            assert_eq!(edges[0].r, "1.5");
            assert_eq!(ts, None);
        }
        _ => panic!("a touch"),
    }
    assert!(matches!(
        plan_write(Verb::Post, "/checkpoint", "", true),
        WritePlan::Checkpoint { archive: true }
    ));
    assert!(matches!(
        plan_write(Verb::Post, "/consolidate", r#"{"apply_conflicts":true}"#, true),
        WritePlan::Consolidate { ts: None, apply: true }
    ));
    assert!(matches!(plan_write(Verb::Post, "/sleep", "junk", true), WritePlan::Sleep { ts: None }));
    match plan_write(Verb::Post, "/purge", r#"{"origin_prefix":"user:x"}"#, false) {
        WritePlan::Refused(r) => assert_eq!(r.code, 403),
        _ => panic!("not without a token"),
    }
    match plan_write(Verb::Post, "/purge", r#"{"origin_prefix":"user:x"}"#, true) {
        WritePlan::Purge { prefix } => assert_eq!(prefix, "user:x"),
        _ => panic!("a purge"),
    }
    match plan_write(Verb::Post, "/quarantine", r#"{"origin_prefix":""}"#, true) {
        WritePlan::Refused(r) => assert_eq!(r.message, "origin_prefix must be non-empty"),
        _ => panic!("no prefix"),
    }
    match plan_write(Verb::Get, "/nowhere", "", true) {
        WritePlan::Refused(r) => assert_eq!((r.code, r.message.as_str()), (404, "not found")),
        _ => panic!("not found"),
    }
}

#[test]
fn feedback_names_credit_and_trace() {
    let v = parse_json(r#"{"used":["a"],"trace_id":7}"#).ok().unwrap();
    let r = read_feedback(&v).unwrap();
    assert!(matches!(credit_of(&r), Ok(CreditKind::Used)));
    assert!(matches!(target_of(&r, true), Ok(CreditTarget::Stored)));
    let e = target_of(&r, false).err().unwrap();
    assert_eq!((e.code, e.message.as_str()), (404, "unknown trace_id (evicted or never issued)"));
    let v = parse_json(r#"{"reward":1,"seeds":["a"]}"#).ok().unwrap();
    let r = read_feedback(&v).unwrap();
    assert!(matches!(credit_of(&r), Ok(CreditKind::Reward)));
    assert!(matches!(target_of(&r, false), Ok(CreditTarget::Again)));
    let v = parse_json("{}").ok().unwrap();
    let r = read_feedback(&v).unwrap();
    assert_eq!(credit_of(&r).err().unwrap().message, "feedback needs one of: nodes, reward, used");
    assert_eq!(target_of(&r, false).err().unwrap().message, "feedback needs trace_id or seeds");
    assert_eq!(too_much_feedback(5).message, "feedback rate limit (5/min) exceeded");
}

#[test]
fn failures_say_what_was_done() {
    let (r, wedges) = failure(Stage::Ingest, "disk");
    assert_eq!(r.code, 500);
    assert_eq!(r.message, "ingest failed mid-write; database wedged read-only: disk");
    assert!(wedges);
    let (r, wedges) = failure(Stage::Feedback, "disk");
    assert_eq!(r.message, "feedback applied but not persisted: disk");
    assert!(!wedges);
    assert_eq!(error_body("no \"x\""), r#"{"error":"no \"x\""}"#);
}

#[test]
fn probes_and_sizes() {
    assert!(matches!(open_path(Verb::Get, "/health"), Public::Alive));
    assert!(matches!(open_path(Verb::Get, "/ready"), Public::Ready));
    assert!(matches!(open_path(Verb::Get, "/ui/"), Public::Page));
    assert!(matches!(open_path(Verb::Post, "/health"), Public::Private));
    assert_eq!(path_of("/stats?x=1"), "/stats");
    assert!(announced_too_large(5, 5).is_none());
    assert_eq!(announced_too_large(6, 5).unwrap().message, "body too large (6 > 5 bytes)");
    assert_eq!(too_large(6, 5).unwrap().message, "body too large (> 5 bytes)");
}

#[test]
fn a_repeated_request_is_replayed() {
    let mut kept = IdemStore::in_memory(2, 1000);
    let mut flying = Inflight::new();
    let full = || Some(refuse(507, "full"));
    let key = match gate_write(None, None, "POST", "/touch", Some("k"), &kept, &mut flying, 0, 0) {
        Gate::Run { key } => key.unwrap(),
        _ => panic!("runs"),
    };
    assert_eq!(key, "POST /touch k");
    match gate_write(None, None, "POST", "/touch", Some("k"), &kept, &mut flying, 0, 1) {
        Gate::Refused(r) => assert_eq!(r.code, 409),
        _ => panic!("in flight"),
    }
    let line = outcome_line(&key, 200, "{}", 10).unwrap();
    assert!(!settle_write(&mut kept, &mut flying, &key, 200, "{}", 10, true));
    assert_eq!(parse_stored(&line).unwrap().code, 200);
    match gate_write(None, full(), "POST", "/touch", Some("k"), &kept, &mut flying, 1010, 2) {
        Gate::Replay { code, body } => assert_eq!((code, body.as_str()), (200, "{}")),
        _ => panic!("replayed"),
    }
    assert!(matches!(
        gate_write(None, None, "POST", "/touch", Some("k"), &kept, &mut flying, 1011, 3),
        Gate::Run { .. }
    ));
    assert!(matches!(
        gate_write(None, None, "POST", "/touch", None, &kept, &mut flying, 0, 4),
        Gate::Run { key: None }
    ));
    match gate_write(None, full(), "POST", "/ingest", None, &kept, &mut flying, 0, 5) {
        Gate::Refused(r) => assert_eq!(r.code, 507),
        _ => panic!("full"),
    }
    match gate_write(Some("disk"), None, "POST", "/touch", None, &kept, &mut flying, 0, 6) {
        Gate::Refused(r) => assert_eq!(r.code, 503),
        _ => panic!("wedged"),
    }
    assert!(needs_room("/ingest") && !needs_room("/purge"));
    assert!(outcome_line("x", 500, "", 0).is_none());
    let before = kept.len();
    settle_write(&mut kept, &mut flying, "x", 500, "", 0, true);
    settle_write(&mut kept, &mut flying, "x", 200, "", 0, false);
    assert_eq!(kept.len(), before);
}

// -- Stores ------------------------------------------------------------------

#[test]
fn responses_survive_a_restart() {
    let e = Stored { key: "a\nb".into(), code: 201, body: "{\"x\":1}".into(), at: 5 };
    let line = stored_line(&e);
    assert!(!line.contains('\n'));
    let back = parse_stored(&line).unwrap();
    assert_eq!((back.key, back.code, back.body, back.at), (e.key, e.code, e.body, e.at));
    let log = format!("{line}\nnot json\n\n");
    let s = IdemStore::open(4, 100, log.as_bytes(), 50);
    assert_eq!(s.len(), 1);
    assert_eq!(s.get("a\nb", 50), Some((201, "{\"x\":1}".to_string())));
    assert_eq!(s.get("a\nb", 106), None);
    assert_eq!(s.live_log(), format!("{line}\n"));
    assert_eq!(IdemStore::open(4, 100, log.as_bytes(), 500).len(), 0);
}

#[test]
fn the_oldest_response_makes_room() {
    let mut s = IdemStore::in_memory(2, 1000);
    for (i, k) in ["a", "b", "c"].iter().enumerate() {
        s.put(Stored { key: k.to_string(), code: 200, body: String::new(), at: i as i64 });
    }
    assert_eq!(s.len(), 2);
    assert!(s.get("a", 5).is_none());
    assert!(s.get("c", 5).is_some());
}

#[test]
fn traces_are_found_by_number() {
    let mut s: TraceStore<String> = TraceStore::in_memory(2);
    let mut ids = Vec::new();
    for t in ["x", "y", "z"] {
        let id = s.issue().unwrap();
        assert!(s.get(id).is_none());
        s.put(id, t.to_string());
        ids.push(id);
    }
    assert_eq!(s.len(), 2);
    assert!(s.get(ids[0]).is_none());
    assert_eq!(s.get(ids[2]).unwrap(), "z");
    assert_eq!(s.ids(), vec![ids[1], ids[2]]);
    s.clear();
    assert_eq!(s.len(), 0);
    assert!(s.issue().unwrap() > ids[2]);
}

#[test]
fn the_clock_never_goes_back() {
    let mut last = 0;
    assert_eq!(now_ms(&mut last, 100), 100);
    let t = now_ms(&mut last, 50);
    assert!(t >= 100);
    let mut w = None;
    wedge(&mut w, "first");
    wedge(&mut w, "second");
    assert_eq!(w.as_deref(), Some("first"));
}

// -- The registry --------------------------------------------------------------

fn db(name: &str, last_used: u64, idle: bool, bytes: usize) -> OpenDb {
    OpenDb { name: name.to_string(), last_used, idle, bytes: Some(bytes) }
}

#[test]
fn the_least_recently_used_leaves() {
    let dbs = || vec![db("a", 3, true, 10), db("b", 1, false, 10), db("c", 2, true, 10)];
    assert_eq!(open_bytes(&dbs()), 30);
    assert_eq!(make_room(&dbs(), 4).ok().unwrap(), None);
    assert_eq!(make_room(&dbs(), 3).ok().unwrap(), Some("c".to_string()));
    let e = make_room(&vec![db("b", 1, false, 1)], 1).err().unwrap();
    assert_eq!(e.code, 503);
    assert_eq!(e.message, "open database limit reached (1) and none are idle");
    assert_eq!(evict_until(dbs(), 20), strings(&["c"]));
    assert_eq!(evict_until(dbs(), 5), strings(&["c", "a"]));
    assert!(evict_until(dbs(), 30).is_empty());
}

#[test]
fn databases_are_looked_up() {
    assert!(matches!(registry::resolve("a", false, true, true, true), Lookup::Open));
    assert!(matches!(registry::resolve("default", false, false, false, false), Lookup::Files));
    match registry::resolve("x", false, false, true, false) {
        Lookup::Refused(r) => {
            assert_eq!((r.code, r.message.as_str()), (404, "unknown db 'x' (create it with POST /db/x)"));
        }
        _ => panic!("unknown"),
    }
    assert!(matches!(
        registry::resolve("x", true, false, true, false),
        Lookup::Dir { create: true }
    ));
    assert!(matches!(
        registry::resolve("default", false, false, true, false),
        Lookup::Dir { create: true }
    ));
    assert!(matches!(
        registry::resolve("x", false, false, true, true),
        Lookup::Dir { create: false }
    ));
    match registry::resolve("x", false, false, false, false) {
        Lookup::Refused(r) => assert_eq!(r.code, 400),
        _ => panic!("one database"),
    }
    match registry::resolve("X!", false, false, true, true) {
        Lookup::Refused(r) => assert_eq!(r.message, "invalid db name 'X!' (want [a-z0-9_-]{1,64})"),
        _ => panic!("no name"),
    }
}

#[test]
fn growth_is_bounded() {
    assert_eq!(engine_bytes(100, 2), 166);
    assert!(check_quota(99, 5, 100, 6).is_none());
    assert!(check_quota(999, 5, 0, 0).is_none());
    assert_eq!(check_quota(100, 5, 100, 6).unwrap().code, 507);
    assert!(check_quota(1, 6, 100, 6).unwrap().message.starts_with("database over edge quota (6 >= 6)"));
    assert!(over_budget(10, 10) && !over_budget(9, 10) && !over_budget(9, 0));
    assert_eq!(shed(10, 10).code, 429);
}

#[test]
fn names_are_listed_in_order() {
    let l = list_names(&strings(&["b", "a", "b", "Bad!"]), &strings(&["z", "a"]));
    assert_eq!(l, strings(&["a", "b", "z"]));
}

#[test]
fn maintenance_falls_due() {
    let mut s = Schedule::new(Some(10), None, Some(25), 0);
    assert!(!s.is_empty());
    assert!(s.due(9).is_empty());
    assert_eq!(s.due(10), vec![Task::Consolidate]);
    assert!(s.due(19).is_empty());
    assert_eq!(s.due(25), vec![Task::Consolidate, Task::Checkpoint]);
    assert!(Schedule::new(None, None, None, 0).is_empty());
}

#[test]
fn feedback_is_rationed() {
    let mut w = FeedbackWindow { start: 0, count: 0 };
    assert!(w.allow(1, 2) && w.allow(2, 2) && !w.allow(3, 2));
    assert!(w.allow(60_000, 2));
}

// -- Pages ---------------------------------------------------------------------

fn small_graph() -> TemporalGraph {
    let mut g = TemporalGraph::new();
    ingest_entities_mem(
        &mut g,
        r#"[{"name":"svc/Metering-api","type":"svc","edges":[{"dst":"db","kind":"CALLS"}]}]"#,
        1000,
        false,
    )
    .unwrap();
    g
}

#[test]
fn searches_find_tokens_or_parts() {
    let g = small_graph();
    assert_eq!(match_by_tokens(&g, &strings(&["meter"]), 5), strings(&["svc/Metering-api"]));
    assert!(match_by_tokens(&g, &strings(&["etering"]), 5).is_empty());
    assert_eq!(match_substrings(&g, &strings(&["etering"]), 5), strings(&["svc/Metering-api"]));
    assert!(match_substrings(&g, &strings(&[""]), 5).is_empty());
    assert_eq!(match_body(&strings(&["a"])), r#"{"nodes":["a"]}"#);
    let id = g.id_of("db").unwrap();
    assert!(surfaced_here(&g, &vec![id], "db"));
    assert!(!surfaced_here(&g, &vec![id], "svc/Metering-api"));
    assert!(!surfaced_here(&g, &vec![id], "nobody"));
}

#[test]
fn bodies_are_written() {
    assert_eq!(
        ingest_body(&strings(&["x"]), 4, 3),
        r#"{"edges":3,"nodes":4,"stale_retired":["x"]}"#
    );
    assert_eq!(touch_body(2, 1), r#"{"missed":1,"touched":2}"#);
    assert_eq!(db_row_json("a", &DbState::Closed).text(), r#"{"db":"a","open":false}"#);
    assert_eq!(
        db_row_json("a", &DbState::Busy).text(),
        r#"{"busy":true,"db":"a","open":true}"#
    );
    let g = small_graph();
    let eids = list_edges(&g, 500);
    let page = graph_page(&g, &eids, &strings(&["0.5"]), 500).text();
    assert!(page.contains(r#""kind":"CALLS""#) && page.contains(r#""weight":0.5"#));
    assert!(page.contains(r#""truncated":false"#));
}

#[test]
fn metrics_are_exposed() {
    let mut m = RequestMetrics::new();
    m.record(0, 200, 1);
    let d = Gauges {
        db: "default".into(),
        nodes: 2,
        edges_live: 1,
        edges_dead: 0,
        lambda_scale: "1".into(),
        ewma_mass: "0".into(),
        traces: 0,
        wedged: false,
        wal_lsn: 3,
        approx_bytes: 99,
    };
    let page = metrics_page(7, &m, 1, 1024, &vec![d]);
    assert!(page.starts_with("# TYPE psyrag_uptime_seconds gauge\npsyrag_uptime_seconds 7\n"));
    assert!(page.contains("psyrag_open_dbs 1\n"));
    assert!(page.contains("psyrag_mem_budget_bytes 1024\n"));
    assert!(page.contains("psyrag_db_nodes{db=\"default\"} 2\n"));
    assert!(page.contains("psyrag_db_wal_lsn{db=\"default\"} 3\n"));
}

#[test]
fn exports_are_written() {
    let g = small_graph();
    let nodes = nodes_jsonl(&g);
    assert_eq!(nodes.lines().count(), 2);
    assert!(nodes.contains("svc/Metering-api"));
    let eids = list_edges(&g, 500);
    assert_eq!(eids.len(), 1);
    assert!(list_edges(&g, 0).len() <= 1);
    let line = edge_line(&g, eids[0], "0.25", 77);
    assert!(line.contains("CALLS") && line.contains("0.25"));
    assert!(schema_sql("ds").contains("ds"));
    assert!(queries_gql("ds").contains("ds"));
    assert!(load_sh("ds").contains("ds"));
}

#[test]
fn requests_are_written_and_answers_read() {
    let r = get_request("http://h:1/stats", Some("tok")).ok().unwrap();
    assert_eq!(r.hostport, "h:1");
    assert!(r.text.starts_with("GET /stats HTTP/1.0\r\nHost: h\r\n"));
    assert!(r.text.contains("Authorization: Bearer tok\r\n"));
    assert!(get_request("ftp://x", None).is_err());
    let raw = b"HTTP/1.1 200 OK\r\nA: b\r\n\r\nbody".to_vec();
    let n = head_len(&raw).ok().unwrap();
    let head = String::from_utf8(raw[..n].to_vec()).unwrap();
    assert_eq!(status_of(&head).ok().unwrap(), 200);
    assert!(head_len(&b"no end".to_vec()).is_err());
    // The message quotes the line as a literal, with its quotes escaped.
    let e = status_of("HTTP/1.1 \"x\"\r\n").err().unwrap();
    assert!(e.contains("\\\"x\\\""), "{e}");
}

// -- Paths ---------------------------------------------------------------------

fn up(path: &str, has_memory: bool, has_git: bool) -> Ancestor {
    Ancestor { path: path.to_string(), has_memory, has_git }
}

#[test]
fn resolves_psyrag_beside_git_from_nested_cwd() {
    let ups = vec![
        up("/r/a/b/c", false, false),
        up("/r/a/b", false, false),
        up("/r/a", false, false),
        up("/r", false, true),
        up("/", true, true),
    ];
    let p = resolve(&ups).ok().unwrap();
    assert_eq!(p.dir, "/r/.psyrag");
    assert_eq!(p.wal, "/r/.psyrag/mem.wal");
    assert_eq!(p.sidecar, "/r/.psyrag/mem.wal.psyrag.json");
    assert_eq!(p.sock, "/r/.psyrag/mcp.sock");
    assert_eq!(p.last_sleep, "/r/.psyrag/last_sleep");
    let p = resolve(&vec![up("/", true, false)]).ok().unwrap();
    assert_eq!(p.dir, "/.psyrag");
}

#[test]
fn errors_when_no_repo_root_found() {
    let e = resolve(&vec![up("/tmp/x", false, false), up("/", false, false)]).err().unwrap();
    assert_eq!(e, "no .psyrag/ or .git/ found from cwd upward; run inside a project");
}

#[test]
fn long_socket_paths_are_refused() {
    assert!(check_socket(&"a".repeat(100)).is_ok());
    let e = check_socket(&"a".repeat(101)).err().unwrap();
    assert!(e.starts_with("socket path too long for this platform (101 bytes): aaa"));
}

#[test]
fn a_failed_checkpoint_wedges_and_other_tasks_do_not() {
    let mut wedged = None;
    task_failed(Task::Sleep, &mut wedged, "disk full");
    task_failed(Task::Consolidate, &mut wedged, "disk full");
    assert!(takes_tasks(&wedged));
    task_failed(Task::Checkpoint, &mut wedged, "no space");
    assert!(!takes_tasks(&wedged));
    task_failed(Task::Checkpoint, &mut wedged, "later");
    assert_eq!(wedged.as_deref(), Some("no space"));
    let names = [Task::Consolidate, Task::Sleep, Task::Checkpoint].map(task_name);
    assert_eq!(names, ["consolidate", "sleep", "checkpoint"]);
}
