//! What a command line asks for.

use crate::access;
use crate::access::{valid_db_name, Tokens, TokensV, DEFAULT_DB};
use crate::args;
use crate::args::{split_at_first, Args, ArgsV};
use crate::credit::Spread;
use crate::graph;
use crate::model::Ts;
use crate::query;
use crate::text;
use crate::text::{cat2, cat3, chars_of, same_text, split_text, text_of};
use vstd::prelude::*;

verus! {

pub const USAGE: &'static str = "psyrag <command> [flags]
commands: config ingest retrieve touch feedback consolidate sleep stats
          checkpoint verify backup purge export-bq db serve standby monitor mcp
standby:  --primary URL [--primary-token T] [--follow-db NAME] [--poll-ms N]
          --wal PATH --addr HOST:PORT   (read-only warm replica of a primary)
global:   --wal PATH  --sidecar PATH  --config PATH.json  --data-dir DIR  --db NAME
run `psyrag config` to see all tunables.";

/// A command with its settings; `S` is text, `L` a list of texts.
pub enum Command<S, L> {
    Usage,
    ConfigWrite { path: S },
    ConfigShow { config: Option<S> },
    Ingest { file: S, ts: Option<Ts>, cai: bool, reconcile: bool, origin: Option<S> },
    Retrieve { seeds: L, ts: Option<Ts>, depth: Option<u32>, top_k: usize, adapt: bool },
    Feedback { seeds: L, ts: Option<Ts>, depth: Option<u32>, top_k: usize },
    Touch { edges: L, ts: Option<Ts> },
    Consolidate { ts: Option<Ts>, apply: bool },
    Stats,
    Sleep { ts: Option<Ts> },
    Export { out: S, dataset: S, ts: Option<Ts> },
    Purge { prefix: S },
    Checkpoint { archive: bool },
    Verify,
    Backup { out: S },
    DbList { root: S },
    DbCreate { root: S, name: S },
    Serve,
    Standby,
    Monitor { url: S, interval_ms: u64 },
    Mcp,
    McpSend,
}

/// The mathematical form of a [`Command`].
pub type CommandV = Command<Seq<char>, Seq<Seq<char>>>;

pub open spec fn command_view(c: Command<String, Vec<String>>) -> CommandV {
    match c {
        Command::Usage => Command::Usage,
        Command::ConfigWrite { path } => Command::ConfigWrite { path: path@ },
        Command::ConfigShow { config } => Command::ConfigShow {
            config: graph::label_view(config),
        },
        Command::Ingest { file, ts, cai, reconcile, origin } => Command::Ingest {
            file: file@,
            ts,
            cai,
            reconcile,
            origin: graph::label_view(origin),
        },
        Command::Retrieve { seeds, ts, depth, top_k, adapt } => Command::Retrieve {
            seeds: text::views(seeds@),
            ts,
            depth,
            top_k,
            adapt,
        },
        Command::Feedback { seeds, ts, depth, top_k } => Command::Feedback {
            seeds: text::views(seeds@),
            ts,
            depth,
            top_k,
        },
        Command::Touch { edges, ts } => Command::Touch { edges: text::views(edges@), ts },
        Command::Consolidate { ts, apply } => Command::Consolidate { ts, apply },
        Command::Stats => Command::Stats,
        Command::Sleep { ts } => Command::Sleep { ts },
        Command::Export { out, dataset, ts } => Command::Export {
            out: out@,
            dataset: dataset@,
            ts,
        },
        Command::Purge { prefix } => Command::Purge { prefix: prefix@ },
        Command::Checkpoint { archive } => Command::Checkpoint { archive },
        Command::Verify => Command::Verify,
        Command::Backup { out } => Command::Backup { out: out@ },
        Command::DbList { root } => Command::DbList { root: root@ },
        Command::DbCreate { root, name } => Command::DbCreate { root: root@, name: name@ },
        Command::Serve => Command::Serve,
        Command::Standby => Command::Standby,
        Command::Monitor { url, interval_ms } => Command::Monitor { url: url@, interval_ms },
        Command::Mcp => Command::Mcp,
        Command::McpSend => Command::McpSend,
    }
}

pub open spec fn ts_of(a: ArgsV) -> Option<Ts> {
    match a.integer("ts"@) {
        Some(i) => Some(i as i64),
        None => None,
    }
}

pub open spec fn depth_of(a: ArgsV) -> Option<u32> {
    match a.number("depth"@, u32::MAX as nat) {
        Some(n) => Some(n as u32),
        None => None,
    }
}

pub open spec fn size_or(a: ArgsV, k: Seq<char>, default: usize) -> usize {
    match a.number(k, usize::MAX as nat) {
        Some(n) => n as usize,
        None => default,
    }
}

fn size_or_of(a: &Args, k: &str, default: usize) -> (res: usize)
    ensures
        res == size_or(a@, k@, default),
{
    match a.get_usize(k) {
        Some(n) => n,
        None => default,
    }
}

fn owned(s: Option<&str>) -> (res: Option<String>)
    ensures
        graph::label_view(res) == graph::str_view(s),
{
    match s {
        Some(t) => Some(t.to_owned()),
        None => None,
    }
}

/// What the `db` command asks for.
pub open spec fn planned_db(a: ArgsV) -> Result<CommandV, Seq<char>> {
    match a.get("data-dir"@) {
        Some(root) => if a.positionals.len() > 1 && a.positionals[1] == "list"@ {
            Ok(Command::DbList { root })
        } else if a.positionals.len() > 1 && a.positionals[1] == "create"@ {
            if a.positionals.len() <= 2 {
                Err("usage: psyrag db create NAME --data-dir DIR"@)
            } else if !access::is_db_name(a.positionals[2]) {
                Err("invalid db name '"@ + a.positionals[2] + "' (want [a-z0-9_-]{1,64})"@)
            } else {
                Ok(Command::DbCreate { root, name: a.positionals[2] })
            }
        } else {
            Err("usage: psyrag db {list | create NAME} --data-dir DIR"@)
        },
        None => Err("db command requires --data-dir DIR"@),
    }
}

/// What a command line asks for, or why it cannot be done.
pub open spec fn planned(a: ArgsV) -> Result<CommandV, Seq<char>> {
    if a.positionals.len() == 0 {
        Ok(Command::Usage)
    } else {
        let c = a.positionals[0];
        if c == "config"@ {
            match a.get("write"@) {
                Some(path) => Ok(Command::ConfigWrite { path }),
                None => Ok(Command::ConfigShow { config: a.get("config"@) }),
            }
        } else if c == "ingest"@ {
            match a.get("file"@) {
                Some(file) => Ok(
                    Command::Ingest {
                        file,
                        ts: ts_of(a),
                        cai: a.has("cai"@),
                        reconcile: a.has("reconcile"@),
                        origin: a.get("origin"@),
                    },
                ),
                None => Err("--file required"@),
            }
        } else if c == "retrieve"@ {
            if a.get_all("seed"@).len() == 0 {
                Err("at least one --seed required"@)
            } else {
                Ok(
                    Command::Retrieve {
                        seeds: a.get_all("seed"@),
                        ts: ts_of(a),
                        depth: depth_of(a),
                        top_k: size_or(a, "top-k"@, 10),
                        adapt: a.has("adapt"@),
                    },
                )
            }
        } else if c == "feedback"@ {
            if a.get_all("seed"@).len() == 0 {
                Err("at least one --seed required"@)
            } else {
                Ok(
                    Command::Feedback {
                        seeds: a.get_all("seed"@),
                        ts: ts_of(a),
                        depth: depth_of(a),
                        top_k: size_or(a, "top-k"@, 10),
                    },
                )
            }
        } else if c == "touch"@ {
            if a.get_all("edge"@).len() == 0 {
                Err("at least one --edge src,dst,kind,R required"@)
            } else {
                Ok(Command::Touch { edges: a.get_all("edge"@), ts: ts_of(a) })
            }
        } else if c == "consolidate"@ {
            Ok(Command::Consolidate { ts: ts_of(a), apply: a.has("apply-conflicts"@) })
        } else if c == "stats"@ {
            Ok(Command::Stats)
        } else if c == "sleep"@ {
            Ok(Command::Sleep { ts: ts_of(a) })
        } else if c == "export-bq"@ {
            Ok(
                Command::Export {
                    out: a.get_or("out"@, "./bq_out"@),
                    dataset: a.get_or("dataset"@, "psyrag"@),
                    ts: ts_of(a),
                },
            )
        } else if c == "purge"@ {
            match a.get("origin"@) {
                Some(prefix) => Ok(Command::Purge { prefix }),
                None => Err("--origin PREFIX required"@),
            }
        } else if c == "checkpoint"@ {
            Ok(Command::Checkpoint { archive: !a.has("no-archive"@) })
        } else if c == "verify"@ {
            Ok(Command::Verify)
        } else if c == "backup"@ {
            match a.get("out"@) {
                Some(out) => Ok(Command::Backup { out }),
                None => Err("--out DIR required"@),
            }
        } else if c == "db"@ {
            planned_db(a)
        } else if c == "serve"@ {
            Ok(Command::Serve)
        } else if c == "standby"@ {
            Ok(Command::Standby)
        } else if c == "monitor"@ {
            Ok(
                Command::Monitor {
                    url: a.get_or("url"@, "http://127.0.0.1:8080"@),
                    interval_ms: match a.integer("interval-ms"@) {
                        Some(i) => (i as i64) as u64,
                        None => 500,
                    },
                },
            )
        } else if c == "mcp"@ {
            Ok(Command::Mcp)
        } else if c == "mcp-send"@ {
            Ok(Command::McpSend)
        } else {
            Err("unknown command '"@ + c + "'\n"@ + USAGE@)
        }
    }
}

fn plan_db(a: &Args) -> (res: Result<Command<String, Vec<String>>, String>)
    ensures
        match res {
            Ok(c) => planned_db(a@) == Ok::<CommandV, Seq<char>>(command_view(c)),
            Err(e) => planned_db(a@) == Err::<CommandV, Seq<char>>(e@),
        },
{
    let root = match a.get("data-dir") {
        Some(r) => r.to_owned(),
        None => {
            return Err("db command requires --data-dir DIR".to_owned());
        },
    };
    match a.positional(1) {
        Some(what) => {
            if same_text(what, "list") {
                return Ok(Command::DbList { root });
            }
            if same_text(what, "create") {
                return match a.positional(2) {
                    Some(name) => if valid_db_name(name) {
                        Ok(Command::DbCreate { root, name: name.to_owned() })
                    } else {
                        Err(cat3("invalid db name '", name, "' (want [a-z0-9_-]{1,64})"))
                    },
                    None => Err("usage: psyrag db create NAME --data-dir DIR".to_owned()),
                };
            }
        },
        None => {},
    }
    Err("usage: psyrag db {list | create NAME} --data-dir DIR".to_owned())
}

/// What a command line asks for, or why it cannot be done.
pub fn plan(a: &Args) -> (res: Result<Command<String, Vec<String>>, String>)
    ensures
        match res {
            Ok(c) => planned(a@) == Ok::<CommandV, Seq<char>>(command_view(c)),
            Err(e) => planned(a@) == Err::<CommandV, Seq<char>>(e@),
        },
{
    let c = match a.subcommand() {
        Some(c) => c,
        None => {
            return Ok(Command::Usage);
        },
    };
    let ts = a.get_i64("ts");
    assert(ts == ts_of(a@));
    if same_text(c, "config") {
        match a.get("write") {
            Some(path) => Ok(Command::ConfigWrite { path: path.to_owned() }),
            None => Ok(Command::ConfigShow { config: owned(a.get("config")) }),
        }
    } else if same_text(c, "ingest") {
        match a.get("file") {
            Some(file) => Ok(
                Command::Ingest {
                    file: file.to_owned(),
                    ts,
                    cai: a.has("cai"),
                    reconcile: a.has("reconcile"),
                    origin: owned(a.get("origin")),
                },
            ),
            None => Err("--file required".to_owned()),
        }
    } else if same_text(c, "retrieve") || same_text(c, "feedback") {
        let seeds = a.get_all("seed");
        assert(text::views(seeds@).len() == seeds@.len());
        if seeds.len() == 0 {
            return Err("at least one --seed required".to_owned());
        }
        let depth = a.get_u32("depth");
        assert(depth == depth_of(a@));
        let top_k: usize = size_or_of(a, "top-k", 10);
        if same_text(c, "retrieve") {
            Ok(Command::Retrieve { seeds, ts, depth, top_k, adapt: a.has("adapt") })
        } else {
            Ok(Command::Feedback { seeds, ts, depth, top_k })
        }
    } else if same_text(c, "touch") {
        let edges = a.get_all("edge");
        assert(text::views(edges@).len() == edges@.len());
        if edges.len() == 0 {
            Err("at least one --edge src,dst,kind,R required".to_owned())
        } else {
            Ok(Command::Touch { edges, ts })
        }
    } else if same_text(c, "consolidate") {
        Ok(Command::Consolidate { ts, apply: a.has("apply-conflicts") })
    } else if same_text(c, "stats") {
        Ok(Command::Stats)
    } else if same_text(c, "sleep") {
        Ok(Command::Sleep { ts })
    } else if same_text(c, "export-bq") {
        Ok(
            Command::Export {
                out: a.get_or("out", "./bq_out").to_owned(),
                dataset: a.get_or("dataset", "psyrag").to_owned(),
                ts,
            },
        )
    } else if same_text(c, "purge") {
        match a.get("origin") {
            Some(prefix) => Ok(Command::Purge { prefix: prefix.to_owned() }),
            None => Err("--origin PREFIX required".to_owned()),
        }
    } else if same_text(c, "checkpoint") {
        Ok(Command::Checkpoint { archive: !a.has("no-archive") })
    } else if same_text(c, "verify") {
        Ok(Command::Verify)
    } else if same_text(c, "backup") {
        match a.get("out") {
            Some(out) => Ok(Command::Backup { out: out.to_owned() }),
            None => Err("--out DIR required".to_owned()),
        }
    } else if same_text(c, "db") {
        plan_db(a)
    } else if same_text(c, "serve") {
        Ok(Command::Serve)
    } else if same_text(c, "standby") {
        Ok(Command::Standby)
    } else if same_text(c, "monitor") {
        let interval_ms: u64 = match a.get_i64("interval-ms") {
            Some(i) => i as u64,
            None => 500,
        };
        assert(planned(a@) is Ok);
        assert(interval_ms == planned(a@)->Ok_0->interval_ms);
        Ok(
            Command::Monitor {
                url: a.get_or("url", "http://127.0.0.1:8080").to_owned(),
                interval_ms,
            },
        )
    } else if same_text(c, "mcp") {
        Ok(Command::Mcp)
    } else if same_text(c, "mcp-send") {
        Ok(Command::McpSend)
    } else {
        let head = cat3("unknown command '", c, "'\n");
        Err(cat2(head.as_str(), USAGE))
    }
}

/// How a retrieval is credited.
pub enum CreditPlan<L> {
    /// One reward for all that was surfaced.
    Episodic { spread: Spread },
    /// Nodes with scores, as `name,score`.
    Graded { specs: L },
    /// Nodes that were used.
    Used { nodes: L },
}

pub open spec fn credit_view(c: CreditPlan<Vec<String>>) -> CreditPlan<Seq<Seq<char>>> {
    match c {
        CreditPlan::Episodic { spread } => CreditPlan::Episodic { spread },
        CreditPlan::Graded { specs } => CreditPlan::Graded { specs: text::views(specs@) },
        CreditPlan::Used { nodes } => CreditPlan::Used { nodes: text::views(nodes@) },
    }
}

/// How a retrieval is credited: by a reward, where `--reward` is a number, else
/// by scores, else by use.
pub open spec fn credit_planned(a: ArgsV, reward_is_number: bool) -> CreditPlan<Seq<Seq<char>>> {
    if reward_is_number {
        CreditPlan::Episodic {
            spread: if a.get_or("spread"@, "by_activation"@) == "uniform"@ {
                Spread::Uniform
            } else {
                Spread::ByActivation
            },
        }
    } else if a.has("credit"@) {
        CreditPlan::Graded { specs: a.get_all("credit"@) }
    } else {
        CreditPlan::Used { nodes: a.get_all("used"@) }
    }
}

/// How a retrieval is credited.
pub fn plan_credit(a: &Args, reward_is_number: bool) -> (res: CreditPlan<Vec<String>>)
    ensures
        credit_view(res) == credit_planned(a@, reward_is_number),
{
    if reward_is_number {
        let spread = if same_text(a.get_or("spread", "by_activation"), "uniform") {
            Spread::Uniform
        } else {
            Spread::ByActivation
        };
        CreditPlan::Episodic { spread }
    } else if a.has("credit") {
        CreditPlan::Graded { specs: a.get_all("credit") }
    } else {
        CreditPlan::Used { nodes: a.get_all("used") }
    }
}

/// The parts of a text between commas, where there are `n`.
pub open spec fn comma_parts(spec: Seq<char>, n: nat) -> Option<Seq<Seq<char>>> {
    let ps = text::split_char(spec, ',');
    if ps.len() == n {
        Some(ps)
    } else {
        None
    }
}

/// The name and the score of a credit.
pub fn credit_spec(spec: &str) -> (res: Result<(String, String), String>)
    ensures
        match res {
            Ok((name, score)) => comma_parts(spec@, 2) == Some(seq![name@, score@]),
            Err(e) => comma_parts(spec@, 2) is None && e@ == "bad --credit '"@ + spec@
                + "', want name,score"@,
        },
{
    let ps = split_text(spec, ',');
    let ghost vs = text::views(ps@);
    assert(vs.len() == ps@.len());
    if ps.len() != 2 {
        return Err(cat3("bad --credit '", spec, "', want name,score"));
    }
    assert(vs =~= seq![ps@[0]@, ps@[1]@]);
    Ok((ps[0].clone(), ps[1].clone()))
}

/// An edge by names, and how much it is reinforced.
pub struct EdgeSpec {
    pub src: String,
    pub dst: String,
    pub kind: String,
    pub r: String,
}

/// The edge of a touch.
pub fn edge_spec(spec: &str) -> (res: Result<EdgeSpec, String>)
    ensures
        match res {
            Ok(e) => comma_parts(spec@, 4) == Some(seq![e.src@, e.dst@, e.kind@, e.r@]),
            Err(m) => comma_parts(spec@, 4) is None && m@ == "bad --edge '"@ + spec@
                + "', want src,dst,kind,R"@,
        },
{
    let ps = split_text(spec, ',');
    let ghost vs = text::views(ps@);
    assert(vs.len() == ps@.len());
    if ps.len() != 4 {
        return Err(cat3("bad --edge '", spec, "', want src,dst,kind,R"));
    }
    assert(vs =~= seq![ps@[0]@, ps@[1]@, ps@[2]@, ps@[3]@]);
    Ok(EdgeSpec { src: ps[0].clone(), dst: ps[1].clone(), kind: ps[2].clone(), r: ps[3].clone() })
}

/// Where a database is kept.
pub enum DbPaths<S> {
    /// In the directory of its name under a root.
    Dir { root: S, db: S },
    /// In two files.
    Files { wal: S, sidecar: S },
}

pub open spec fn paths_view(p: DbPaths<String>) -> DbPaths<Seq<char>> {
    match p {
        DbPaths::Dir { root, db } => DbPaths::Dir { root: root@, db: db@ },
        DbPaths::Files { wal, sidecar } => DbPaths::Files { wal: wal@, sidecar: sidecar@ },
    }
}

/// The sidecar that goes with a log, unless one is named.
pub open spec fn sidecar_for(a: ArgsV, wal: Seq<char>) -> Seq<char> {
    a.get_or("sidecar"@, wal + ".psyrag.json"@)
}

fn sidecar_of(a: &Args, wal: &str) -> (res: String)
    ensures
        res@ == sidecar_for(a@, wal@),
{
    match a.get("sidecar") {
        Some(s) => s.to_owned(),
        None => {
            cat2(wal, ".psyrag.json")
        },
    }
}

/// Where the database that a command line addresses is kept.
pub open spec fn located(a: ArgsV) -> Result<DbPaths<Seq<char>>, Seq<char>> {
    match a.get("data-dir"@) {
        Some(root) => {
            let db = a.get_or("db"@, DEFAULT_DB@);
            if access::is_db_name(db) {
                Ok(DbPaths::Dir { root, db })
            } else {
                Err("invalid --db '"@ + db + "' (want [a-z0-9_-]{1,64})"@)
            }
        },
        None => if a.get("db"@) is Some {
            Err("--db requires --data-dir (multi-database layout)"@)
        } else {
            let wal = a.get_or("wal"@, "psyrag.wal"@);
            Ok(DbPaths::Files { wal, sidecar: sidecar_for(a, wal) })
        },
    }
}

/// Where the database that a command line addresses is kept.
pub fn db_paths(a: &Args) -> (res: Result<DbPaths<String>, String>)
    ensures
        match res {
            Ok(p) => located(a@) == Ok::<DbPaths<Seq<char>>, Seq<char>>(paths_view(p)),
            Err(e) => located(a@) == Err::<DbPaths<Seq<char>>, Seq<char>>(e@),
        },
{
    match a.get("data-dir") {
        Some(root) => {
            let db = a.get_or("db", DEFAULT_DB);
            if valid_db_name(db) {
                Ok(DbPaths::Dir { root: root.to_owned(), db: db.to_owned() })
            } else {
                Err(cat3("invalid --db '", db, "' (want [a-z0-9_-]{1,64})"))
            }
        },
        None => {
            if a.get("db").is_some() {
                Err("--db requires --data-dir (multi-database layout)".to_owned())
            } else {
                let wal = a.get_or("wal", "psyrag.wal").to_owned();
                let sidecar = sidecar_of(a, wal.as_str());
                Ok(DbPaths::Files { wal, sidecar })
            }
        },
    }
}

/// The unit at the end of an interval, in seconds, and how long it is.
pub open spec fn interval_unit(s: Seq<char>) -> (nat, nat) {
    if s.len() == 0 {
        (1, 0)
    } else if s.last() == 's' {
        (1, 1)
    } else if s.last() == 'm' {
        (60, 1)
    } else if s.last() == 'h' {
        (3600, 1)
    } else if s.last() == 'd' {
        (86_400, 1)
    } else {
        (1, 0)
    }
}

/// The seconds of an interval such as "90s", "30m", "24h" or "7d", or a number
/// of seconds.
pub open spec fn interval(s: Seq<char>) -> Result<nat, Seq<char>> {
    let (unit, len) = interval_unit(s);
    match text::parse_unsigned(s.take(s.len() - len)) {
        Some(n) => if n > u64::MAX {
            Err("bad interval '"@ + s + "' (want e.g. 90s, 30m, 24h)"@)
        } else if n == 0 {
            Err("interval '"@ + s + "' must be > 0"@)
        } else if n * unit > u64::MAX {
            Err("interval '"@ + s + "' is too long"@)
        } else {
            Ok(n * unit)
        },
        None => Err("bad interval '"@ + s + "' (want e.g. 90s, 30m, 24h)"@),
    }
}

/// The seconds of an interval.
pub fn parse_every(s: &str) -> (res: Result<u64, String>)
    ensures
        match res {
            Ok(n) => interval(s@) == Ok::<nat, Seq<char>>(n as nat),
            Err(e) => interval(s@) == Err::<nat, Seq<char>>(e@),
        },
{
    let v = chars_of(s);
    let n: usize = v.len();
    let (unit, len): (u64, usize) = if n == 0 {
        (1, 0)
    } else if v[n - 1] == 's' {
        (1, 1)
    } else if v[n - 1] == 'm' {
        (60, 1)
    } else if v[n - 1] == 'h' {
        (3600, 1)
    } else if v[n - 1] == 'd' {
        (86_400, 1)
    } else {
        (1, 0)
    };
    let num = text_of(&v, 0, n - len);
    assert(num@ =~= s@.take(s@.len() - len));
    match text::read_unsigned(num.as_str(), u64::MAX) {
        Some(k) => {
            if k == 0 {
                return Err(cat3("interval '", s, "' must be > 0"));
            }
            assert(k * unit <= u64::MAX * 86_400) by (nonlinear_arith)
                requires
                    k <= u64::MAX,
                    unit <= 86_400,
            ;
            let total: u128 = k as u128 * unit as u128;
            if total > u64::MAX as u128 {
                Err(cat3("interval '", s, "' is too long"))
            } else {
                Ok(total as u64)
            }
        },
        None => Err(cat3("bad interval '", s, "' (want e.g. 90s, 30m, 24h)")),
    }
}

/// The settings of a server; `S` is text, `T` its tokens.
pub struct ServeOpts<S, T> {
    pub addr: S,
    /// The root of several databases.
    pub data_dir: Option<S>,
    pub wal: S,
    pub sidecar: S,
    pub log_json: bool,
    pub tokens: T,
    pub max_body: usize,
    pub workers: usize,
    pub max_open_dbs: usize,
    /// Seconds between maintenance runs.
    pub sleep_every: Option<u64>,
    pub consolidate_every: Option<u64>,
    pub checkpoint_every: Option<u64>,
    /// Limits of a database; 0 is none.
    pub max_db_bytes: usize,
    pub max_db_edges: usize,
    /// The memory that all open databases may take; 0 is no limit.
    pub max_mem_bytes: usize,
    /// Feedback requests a minute; 0 is no limit.
    pub max_feedback_per_min: u32,
    pub ephemeral_traces: bool,
    /// The primary that a standby follows.
    pub primary: Option<Primary<S>>,
}

/// The primary that a standby follows.
pub struct Primary<S> {
    pub url: S,
    pub token: Option<S>,
    pub db: S,
    pub poll_ms: u64,
}

/// The mathematical form of [`ServeOpts`].
pub type ServeOptsV = ServeOpts<Seq<char>, TokensV>;

pub open spec fn primary_view(p: Option<Primary<String>>) -> Option<Primary<Seq<char>>> {
    match p {
        Some(p) => Some(
            Primary {
                url: p.url@,
                token: graph::label_view(p.token),
                db: p.db@,
                poll_ms: p.poll_ms,
            },
        ),
        None => None,
    }
}

pub open spec fn opts_view(o: ServeOpts<String, Tokens>) -> ServeOptsV {
    ServeOpts {
        addr: o.addr@,
        data_dir: graph::label_view(o.data_dir),
        wal: o.wal@,
        sidecar: o.sidecar@,
        log_json: o.log_json,
        tokens: o.tokens@,
        max_body: o.max_body,
        workers: o.workers,
        max_open_dbs: o.max_open_dbs,
        sleep_every: o.sleep_every,
        consolidate_every: o.consolidate_every,
        checkpoint_every: o.checkpoint_every,
        max_db_bytes: o.max_db_bytes,
        max_db_edges: o.max_db_edges,
        max_mem_bytes: o.max_mem_bytes,
        max_feedback_per_min: o.max_feedback_per_min,
        ephemeral_traces: o.ephemeral_traces,
        primary: primary_view(o.primary),
    }
}

/// What the environment says: tokens, and how many workers fit the machine.
pub struct Environment {
    pub token: Option<String>,
    pub read_token: Option<String>,
    pub primary_token: Option<String>,
    pub workers: usize,
}

/// The first of two that is there.
pub open spec fn either(a: Option<Seq<char>>, b: Option<Seq<char>>) -> Option<Seq<char>> {
    match a {
        Some(_) => a,
        None => b,
    }
}

fn either_of(a: Option<&str>, b: &Option<String>) -> (res: Option<String>)
    ensures
        graph::label_view(res) == either(graph::str_view(a), graph::label_view(*b)),
{
    match a {
        Some(s) => Some(s.to_owned()),
        None => match b {
            Some(s) => Some(s.clone()),
            None => None,
        },
    }
}

/// Whether log lines are JSON.
pub open spec fn log_format(a: ArgsV) -> Result<bool, Seq<char>> {
    let f = a.get_or("log-format"@, "text"@);
    if f == "json"@ {
        Ok(true)
    } else if f == "text"@ {
        Ok(false)
    } else {
        Err("bad --log-format '"@ + f + "' (want json|text)"@)
    }
}

fn log_format_of(a: &Args) -> (res: Result<bool, String>)
    ensures
        match res {
            Ok(b) => log_format(a@) == Ok::<bool, Seq<char>>(b),
            Err(e) => log_format(a@) == Err::<bool, Seq<char>>(e@),
        },
{
    let f = a.get_or("log-format", "text");
    if same_text(f, "json") {
        Ok(true)
    } else if same_text(f, "text") {
        Ok(false)
    } else {
        Err(cat3("bad --log-format '", f, "' (want json|text)"))
    }
}

/// The value of a key as an interval.
pub open spec fn every(a: ArgsV, k: Seq<char>) -> Result<Option<u64>, Seq<char>> {
    match a.get(k) {
        Some(v) => match interval(v) {
            Ok(n) => Ok(Some(n as u64)),
            Err(e) => Err(e),
        },
        None => Ok(None),
    }
}

fn every_of(a: &Args, k: &str) -> (res: Result<Option<u64>, String>)
    ensures
        match res {
            Ok(n) => every(a@, k@) == Ok::<Option<u64>, Seq<char>>(n),
            Err(e) => every(a@, k@) == Err::<Option<u64>, Seq<char>>(e@),
        },
{
    match a.get(k) {
        Some(v) => match parse_every(v) {
            Ok(n) => Ok(Some(n)),
            Err(e) => Err(e),
        },
        None => Ok(None),
    }
}

/// The value of a key in megabytes, as bytes.
pub open spec fn megabytes(a: ArgsV, k: Seq<char>, default: usize) -> Result<usize, Seq<char>> {
    let n = size_or(a, k, default);
    if n * 1_048_576 > usize::MAX {
        Err("--"@ + k + " is too large"@)
    } else {
        Ok((n * 1_048_576) as usize)
    }
}

fn megabytes_of(a: &Args, k: &str, default: usize) -> (res: Result<usize, String>)
    ensures
        match res {
            Ok(n) => megabytes(a@, k@, default) == Ok::<usize, Seq<char>>(n),
            Err(e) => megabytes(a@, k@, default) == Err::<usize, Seq<char>>(e@),
        },
{
    let n: usize = size_or_of(a, k, default);
    let total: u128 = n as u128 * 1_048_576;
    if total > usize::MAX as u128 {
        Err(cat3("--", k, " is too large"))
    } else {
        Ok(total as usize)
    }
}

/// Tokens with one more; a later token of a database takes the place of an
/// earlier one.
pub open spec fn with_token(
    ts: Seq<(Seq<char>, Seq<char>)>,
    db: Seq<char>,
    t: Seq<char>,
) -> Seq<(Seq<char>, Seq<char>)>
    decreases ts.len(),
{
    if ts.len() == 0 {
        seq![(db, t)]
    } else if ts.last().0 == db {
        ts.drop_last().push((db, t))
    } else {
        with_token(ts.drop_last(), db, t).push(ts.last())
    }
}

/// The tokens of databases, given as `NAME=TOKEN`.
pub open spec fn db_tokens(specs: Seq<Seq<char>>) -> Result<
    Seq<(Seq<char>, Seq<char>)>,
    Seq<char>,
>
    decreases specs.len(),
{
    if specs.len() == 0 {
        Ok(Seq::empty())
    } else {
        match db_tokens(specs.drop_last()) {
            Ok(ts) => match args::split_once(specs.last(), '=') {
                Some((db, t)) => if access::is_db_name(db) {
                    Ok(with_token(ts, db, t))
                } else {
                    Err("bad --db-token db name '"@ + db + "'"@)
                },
                None => Err("bad --db-token '"@ + specs.last() + "', want NAME=TOKEN"@),
            },
            Err(e) => Err(e),
        }
    }
}

proof fn lemma_db_tokens_fail(a: Seq<Seq<char>>, b: Seq<Seq<char>>)
    requires
        db_tokens(a) is Err,
    ensures
        db_tokens(a + b) == db_tokens(a),
    decreases b.len(),
{
    if b.len() == 0 {
        assert(a + b =~= a);
    } else {
        assert((a + b).drop_last() =~= a + b.drop_last());
        lemma_db_tokens_fail(a, b.drop_last());
    }
}

proof fn lemma_with_token_at(
    ts: Seq<(Seq<char>, Seq<char>)>,
    db: Seq<char>,
    t: Seq<char>,
    i: int,
)
    requires
        -1 <= i < ts.len(),
        i >= 0 ==> ts[i].0 == db,
        forall|j: int| i < j < ts.len() ==> (#[trigger] ts[j]).0 != db,
    ensures
        with_token(ts, db, t) == (if i >= 0 {
            ts.update(i, (db, t))
        } else {
            seq![(db, t)] + ts
        }),
    decreases ts.len(),
{
    if ts.len() == 0 {
        assert(seq![(db, t)] + ts =~= seq![(db, t)]);
    } else if i == ts.len() - 1 {
        assert(ts.drop_last().push((db, t)) =~= ts.update(i, (db, t)));
    } else {
        assert(ts[ts.len() - 1].0 != db);
        lemma_with_token_at(ts.drop_last(), db, t, i);
        if i >= 0 {
            assert(ts.drop_last().update(i, (db, t)).push(ts.last()) =~= ts.update(i, (db, t)));
        } else {
            assert((seq![(db, t)] + ts.drop_last()).push(ts.last()) =~= seq![(db, t)] + ts);
        }
    }
}

fn put_token(ts: &mut Vec<(String, String)>, db: String, t: String)
    ensures
        query::pair_views(final(ts)@) == with_token(query::pair_views(old(ts)@), db@, t@),
{
    let ghost before = query::pair_views(ts@);
    let mut i: usize = ts.len();
    while i > 0
        invariant
            i <= ts@.len(),
            ts@ == old(ts)@,
            before == query::pair_views(ts@),
            forall|j: int| i <= j < ts@.len() ==> (#[trigger] before[j]).0 != db@,
        decreases i,
    {
        assert(before[i - 1] == (ts@[i - 1].0@, ts@[i - 1].1@));
        if same_text(ts[i - 1].0.as_str(), db.as_str()) {
            proof {
                lemma_with_token_at(before, db@, t@, i - 1);
            }
            ts[i - 1] = (db, t);
            assert(query::pair_views(ts@) =~= before.update(i - 1, (db@, t@)));
            return ;
        }
        i -= 1;
    }
    proof {
        lemma_with_token_at(before, db@, t@, -1);
    }
    ts.insert(0, (db, t));
    assert(query::pair_views(ts@) =~= seq![(db@, t@)] + before);
}

fn db_tokens_of(specs: &Vec<String>) -> (res: Result<Vec<(String, String)>, String>)
    ensures
        match res {
            Ok(ts) => db_tokens(text::views(specs@)) == Ok::<
                Seq<(Seq<char>, Seq<char>)>,
                Seq<char>,
            >(query::pair_views(ts@)),
            Err(e) => db_tokens(text::views(specs@)) == Err::<
                Seq<(Seq<char>, Seq<char>)>,
                Seq<char>,
            >(e@),
        },
{
    let ghost all = text::views(specs@);
    let mut ts: Vec<(String, String)> = Vec::new();
    let mut i: usize = 0;
    assert(all.take(0) =~= Seq::empty());
    assert(query::pair_views(ts@) =~= Seq::empty());
    while i < specs.len()
        invariant
            i <= specs@.len(),
            all == text::views(specs@),
            db_tokens(all.take(i as int)) == Ok::<Seq<(Seq<char>, Seq<char>)>, Seq<char>>(
                query::pair_views(ts@),
            ),
        decreases specs@.len() - i,
    {
        let spec = specs[i].as_str();
        let ghost upto = all.take(i + 1);
        proof {
            assert(upto.drop_last() =~= all.take(i as int));
            assert(upto.last() == spec@);
            assert(all =~= upto + all.skip(i + 1));
        }
        match split_at_first(spec, '=') {
            Some((db, t)) => {
                if !valid_db_name(db.as_str()) {
                    let e = cat3("bad --db-token db name '", db.as_str(), "'");
                    proof {
                        lemma_db_tokens_fail(upto, all.skip(i + 1));
                    }
                    return Err(e);
                }
                put_token(&mut ts, db, t);
            },
            None => {
                let e = cat3("bad --db-token '", spec, "', want NAME=TOKEN");
                proof {
                    lemma_db_tokens_fail(upto, all.skip(i + 1));
                }
                return Err(e);
            },
        }
        i += 1;
    }
    assert(all.take(all.len() as int) =~= all);
    Ok(ts)
}

/// The settings of a server, or the first that is wrong.
pub open spec fn serve_planned(a: ArgsV, env: Environment) -> Result<ServeOptsV, Seq<char>> {
    let wal = a.get_or("wal"@, "psyrag.wal"@);
    match log_format(a) {
        Err(e) => Err(e),
        Ok(log_json) => match megabytes(a, "max-body-mb"@, 32) {
            Err(e) => Err(e),
            Ok(max_body) => match every(a, "sleep-every"@) {
                Err(e) => Err(e),
                Ok(sleep_every) => match every(a, "consolidate-every"@) {
                    Err(e) => Err(e),
                    Ok(consolidate_every) => match every(a, "checkpoint-every"@) {
                        Err(e) => Err(e),
                        Ok(checkpoint_every) => match megabytes(a, "max-db-mb"@, 0) {
                            Err(e) => Err(e),
                            Ok(max_db_bytes) => match megabytes(a, "max-mem-mb"@, 0) {
                                Err(e) => Err(e),
                                Ok(max_mem_bytes) => match db_tokens(a.get_all("db-token"@)) {
                                    Err(e) => Err(e),
                                    Ok(tokens) => Ok(
                                        ServeOpts {
                                            addr: a.get_or("addr"@, "127.0.0.1:8080"@),
                                            data_dir: a.get("data-dir"@),
                                            wal,
                                            sidecar: sidecar_for(a, wal),
                                            log_json,
                                            tokens: TokensV {
                                                token: either(
                                                    a.get("token"@),
                                                    graph::label_view(env.token),
                                                ),
                                                read_token: either(
                                                    a.get("read-token"@),
                                                    graph::label_view(env.read_token),
                                                ),
                                                db_tokens: tokens,
                                            },
                                            max_body,
                                            workers: size_or(a, "workers"@, env.workers),
                                            max_open_dbs: size_or(a, "max-open-dbs"@, 64),
                                            sleep_every,
                                            consolidate_every,
                                            checkpoint_every,
                                            max_db_bytes,
                                            max_db_edges: size_or(a, "max-db-edges"@, 0),
                                            max_mem_bytes,
                                            max_feedback_per_min: match a.number(
                                                "max-feedback-per-min"@,
                                                u32::MAX as nat,
                                            ) {
                                                Some(n) => n as u32,
                                                None => 0,
                                            },
                                            ephemeral_traces: a.has("ephemeral-traces"@),
                                            primary: None,
                                        },
                                    ),
                                },
                            },
                        },
                    },
                },
            },
        },
    }
}

/// The settings of a server, or the first that is wrong.
pub fn plan_serve(a: &Args, env: &Environment) -> (res: Result<ServeOpts<String, Tokens>, String>)
    ensures
        match res {
            Ok(o) => serve_planned(a@, *env) == Ok::<ServeOptsV, Seq<char>>(opts_view(o)),
            Err(e) => serve_planned(a@, *env) == Err::<ServeOptsV, Seq<char>>(e@),
        },
{
    let wal = a.get_or("wal", "psyrag.wal").to_owned();
    let sidecar = sidecar_of(a, wal.as_str());
    let log_json = match log_format_of(a) {
        Ok(b) => b,
        Err(e) => {
            return Err(e);
        },
    };
    let max_body: usize = match megabytes_of(a, "max-body-mb", 32) {
        Ok(n) => n,
        Err(e) => {
            return Err(e);
        },
    };
    let sleep_every = match every_of(a, "sleep-every") {
        Ok(n) => n,
        Err(e) => {
            return Err(e);
        },
    };
    let consolidate_every = match every_of(a, "consolidate-every") {
        Ok(n) => n,
        Err(e) => {
            return Err(e);
        },
    };
    let checkpoint_every = match every_of(a, "checkpoint-every") {
        Ok(n) => n,
        Err(e) => {
            return Err(e);
        },
    };
    let max_db_bytes: usize = match megabytes_of(a, "max-db-mb", 0) {
        Ok(n) => n,
        Err(e) => {
            return Err(e);
        },
    };
    let max_mem_bytes: usize = match megabytes_of(a, "max-mem-mb", 0) {
        Ok(n) => n,
        Err(e) => {
            return Err(e);
        },
    };
    let specs = a.get_all("db-token");
    let tokens = match db_tokens_of(&specs) {
        Ok(t) => t,
        Err(e) => {
            return Err(e);
        },
    };
    let max_feedback_per_min: u32 = match a.get_u32("max-feedback-per-min") {
        Some(n) => n,
        None => 0,
    };
    Ok(
        ServeOpts {
            addr: a.get_or("addr", "127.0.0.1:8080").to_owned(),
            data_dir: owned(a.get("data-dir")),
            wal,
            sidecar,
            log_json,
            tokens: Tokens {
                token: either_of(a.get("token"), &env.token),
                read_token: either_of(a.get("read-token"), &env.read_token),
                db_tokens: tokens,
            },
            max_body,
            workers: size_or_of(a, "workers", env.workers),
            max_open_dbs: size_or_of(a, "max-open-dbs", 64),
            sleep_every,
            consolidate_every,
            checkpoint_every,
            max_db_bytes,
            max_db_edges: size_or_of(a, "max-db-edges", 0),
            max_mem_bytes,
            max_feedback_per_min,
            ephemeral_traces: a.has("ephemeral-traces"),
            primary: None,
        },
    )
}

/// The settings of a standby, or the first that is wrong.
pub open spec fn standby_planned(a: ArgsV, env: Environment) -> Result<ServeOptsV, Seq<char>> {
    let wal = a.get_or("wal"@, "psyrag-standby.wal"@);
    match log_format(a) {
        Err(e) => Err(e),
        Ok(log_json) => match a.get("primary"@) {
            None => Err("standby needs --primary URL (e.g. http://primary:8080)"@),
            Some(url) => match megabytes(a, "max-body-mb"@, 32) {
                Err(e) => Err(e),
                Ok(max_body) => Ok(
                    ServeOpts {
                        addr: a.get_or("addr"@, "127.0.0.1:8080"@),
                        data_dir: None,
                        wal,
                        sidecar: sidecar_for(a, wal),
                        log_json,
                        tokens: TokensV {
                            token: either(a.get("token"@), graph::label_view(env.token)),
                            read_token: either(
                                a.get("read-token"@),
                                graph::label_view(env.read_token),
                            ),
                            db_tokens: Seq::empty(),
                        },
                        max_body,
                        workers: at_least(size_or(a, "workers"@, 4), 1),
                        max_open_dbs: 64,
                        sleep_every: None,
                        consolidate_every: None,
                        checkpoint_every: None,
                        max_db_bytes: 0,
                        max_db_edges: 0,
                        max_mem_bytes: 0,
                        max_feedback_per_min: 0,
                        ephemeral_traces: false,
                        primary: Some(
                            Primary {
                                url,
                                token: either(
                                    a.get("primary-token"@),
                                    graph::label_view(env.primary_token),
                                ),
                                db: a.get_or("follow-db"@, "default"@),
                                poll_ms: at_least(size_or(a, "poll-ms"@, 1000), 100) as u64,
                            },
                        ),
                    },
                ),
            },
        },
    }
}

pub open spec fn at_least(n: usize, min: usize) -> usize {
    if n < min {
        min
    } else {
        n
    }
}

fn raised(n: usize, min: usize) -> (res: usize)
    ensures
        res == at_least(n, min),
{
    if n < min {
        min
    } else {
        n
    }
}

/// The settings of a standby, or the first that is wrong.
pub fn plan_standby(a: &Args, env: &Environment) -> (res: Result<ServeOpts<String, Tokens>, String>)
    ensures
        match res {
            Ok(o) => standby_planned(a@, *env) == Ok::<ServeOptsV, Seq<char>>(opts_view(o)),
            Err(e) => standby_planned(a@, *env) == Err::<ServeOptsV, Seq<char>>(e@),
        },
{
    let wal = a.get_or("wal", "psyrag-standby.wal").to_owned();
    let sidecar = sidecar_of(a, wal.as_str());
    let log_json = match log_format_of(a) {
        Ok(b) => b,
        Err(e) => {
            return Err(e);
        },
    };
    let url = match a.get("primary") {
        Some(u) => u.to_owned(),
        None => {
            return Err("standby needs --primary URL (e.g. http://primary:8080)".to_owned());
        },
    };
    let max_body: usize = match megabytes_of(a, "max-body-mb", 32) {
        Ok(n) => n,
        Err(e) => {
            return Err(e);
        },
    };
    let poll: usize = raised(size_or_of(a, "poll-ms", 1000), 100);
    let none: Vec<(String, String)> = Vec::new();
    assert(query::pair_views(none@) =~= Seq::empty());
    Ok(
        ServeOpts {
            addr: a.get_or("addr", "127.0.0.1:8080").to_owned(),
            data_dir: None,
            wal,
            sidecar,
            log_json,
            tokens: Tokens {
                token: either_of(a.get("token"), &env.token),
                read_token: either_of(a.get("read-token"), &env.read_token),
                db_tokens: none,
            },
            max_body,
            workers: raised(size_or_of(a, "workers", 4), 1),
            max_open_dbs: 64,
            sleep_every: None,
            consolidate_every: None,
            checkpoint_every: None,
            max_db_bytes: 0,
            max_db_edges: 0,
            max_mem_bytes: 0,
            max_feedback_per_min: 0,
            ephemeral_traces: false,
            primary: Some(
                Primary {
                    url,
                    token: either_of(a.get("primary-token"), &env.primary_token),
                    db: a.get_or("follow-db", "default").to_owned(),
                    poll_ms: poll as u64,
                },
            ),
        },
    )
}

} // verus!
