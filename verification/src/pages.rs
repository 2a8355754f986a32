//! Responses of a server: search hits, the page of a graph, lists of databases
//! and gauges.

use crate::graph;
use crate::graph::TemporalGraph;
use crate::json;
use crate::json::{Json, JsonV};
use crate::model::{EdgeId, GraphV, NodeId, T_MAX};
use crate::names;
use crate::query;
use crate::rpc::{object1, object2, str_json};
use crate::text;
use crate::text::{decimal_text, has_infix};
use crate::touch;
use vstd::prelude::*;

verus! {

/// A number as a document.
pub(crate) fn count_json(n: u64) -> (res: Json)
    ensures
        res@ == JsonV::Num(text::decimal(n as nat)),
{
    Json::Num(decimal_text(n))
}

pub open spec fn str_item() -> spec_fn(Seq<char>) -> JsonV {
    |s: Seq<char>| JsonV::Str(s)
}

/// A list of texts as a document.
pub(crate) fn list_json(l: &Vec<String>) -> (res: Json)
    ensures
        res@ == JsonV::Arr(text::views(l@).map_values(str_item())),
{
    let ghost vs = text::views(l@);
    let mut items: Vec<Json> = Vec::new();
    let mut i: usize = 0;
    while i < l.len()
        invariant
            i <= l@.len(),
            vs == text::views(l@),
            items@.len() == i,
            forall|k: int| 0 <= k < i ==> (#[trigger] items@[k])@ == JsonV::Str(vs[k]),
        decreases l@.len() - i,
    {
        assert(vs[i as int] == l@[i as int]@);
        items.push(str_json(l[i].as_str()));
        i += 1;
    }
    let res = Json::Arr(items);
    proof {
        json::lemma_json_view(res);
        assert(json::items_view(items@) =~= vs.map_values(str_item()));
    }
    res
}

/// Whether a name holds one of the tokens, whatever their case.
pub open spec fn holds_token(name: Seq<char>, tokens: Seq<Seq<char>>) -> bool {
    exists|i: int|
        0 <= i < tokens.len() && text::lowercase(#[trigger] tokens[i]).len() > 0
            && text::contains_text(text::lowercase(name), text::lowercase(tokens[i]))
}

pub open spec fn hit(tokens: Seq<Seq<char>>) -> spec_fn(Seq<char>) -> bool {
    |name: Seq<char>| holds_token(name, tokens)
}

pub open spec fn at_least_one(n: nat) -> nat {
    if n == 0 {
        1
    } else {
        n
    }
}

/// The names that hold one of the tokens: at most `limit`, but one in any case.
pub open spec fn substring_hits(g: GraphV, tokens: Seq<Seq<char>>, limit: nat) -> Seq<Seq<char>> {
    touch::first(g.names().filter(hit(tokens)), at_least_one(limit))
}

fn has_token(name: &str, lowered: &Vec<String>, Ghost(tokens): Ghost<Seq<Seq<char>>>) -> (res: bool)
    requires
        lowered@.len() == tokens.len(),
        forall|i: int|
            0 <= i < tokens.len() ==> (#[trigger] lowered@[i])@ == text::lowercase(tokens[i]),
    ensures
        res == holds_token(name@, tokens),
{
    let lname = name.to_lowercase();
    let mut i: usize = 0;
    while i < lowered.len()
        invariant
            i <= lowered@.len(),
            lname@ == text::lowercase(name@),
            lowered@.len() == tokens.len(),
            forall|i: int|
                0 <= i < tokens.len() ==> (#[trigger] lowered@[i])@ == text::lowercase(tokens[i]),
            forall|j: int|
                0 <= j < i ==> !(text::lowercase(#[trigger] tokens[j]).len() > 0
                    && text::contains_text(text::lowercase(name@), text::lowercase(tokens[j]))),
        decreases lowered@.len() - i,
    {
        let t = lowered[i].as_str();
        assert(t@ == text::lowercase(tokens[i as int]));
        if !t.is_empty() && has_infix(lname.as_str(), t) {
            return true;
        }
        i += 1;
    }
    false
}

/// The names that hold one of the tokens.
pub fn match_substrings(g: &TemporalGraph, tokens: &Vec<String>, limit: usize) -> (res: Vec<String>)
    requires
        g.wf(),
    ensures
        text::views(res@) == substring_hits(g@, text::views(tokens@), limit as nat),
{
    let ghost ts = text::views(tokens@);
    let mut lowered: Vec<String> = Vec::new();
    let mut k: usize = 0;
    while k < tokens.len()
        invariant
            k <= tokens@.len(),
            ts == text::views(tokens@),
            lowered@.len() == k,
            forall|i: int| 0 <= i < k ==> (#[trigger] lowered@[i])@ == text::lowercase(ts[i]),
        decreases tokens@.len() - k,
    {
        assert(ts[k as int] == tokens@[k as int]@);
        lowered.push(tokens[k].as_str().to_lowercase());
        k += 1;
    }
    let ghost all = g@.names();
    let ghost p = hit(ts);
    let mut out: Vec<String> = Vec::new();
    let n: usize = g.node_count();
    let mut i: usize = 0;
    proof {
        g.lemma_wf();
        reveal(Seq::filter);
        assert(text::views(out@) =~= touch::first(
            all.take(0).filter(p),
            at_least_one(limit as nat),
        ));
    }
    while i < n
        invariant
            i <= n,
            n == g@.nodes.len(),
            n <= u32::MAX,
            g.wf(),
            all == g@.names(),
            p == hit(ts),
            lowered@.len() == ts.len(),
            forall|j: int| 0 <= j < ts.len() ==> (#[trigger] lowered@[j])@ == text::lowercase(ts[j]),
            text::views(out@) == touch::first(
                all.take(i as int).filter(p),
                at_least_one(limit as nat),
            ),
        decreases n - i,
    {
        let name = g.node_name(i as u32);
        let ghost o = out@;
        let ghost done = all.take(i as int).filter(p);
        proof {
            assert(all[i as int] == name@);
            query::lemma_filter_step(all, i as int, p);
            assert(text::views(o).len() == o.len());
        }
        let fits = out.len() == 0 || out.len() < limit;
        if has_token(name, &lowered, Ghost(ts)) {
            if fits {
                let s = name.to_owned();
                proof {
                    query::lemma_views_push(out@, s);
                }
                out.push(s);
            }
            assert(text::views(out@) =~= touch::first(
                done.push(name@),
                at_least_one(limit as nat),
            ));
        }
        i += 1;
    }
    assert(all.take(all.len() as int) =~= all);
    out
}

pub open spec fn name_in(g: GraphV) -> spec_fn(NodeId) -> Seq<char> {
    |id: NodeId| g.nodes[id as int].name
}

/// The names of nodes.
pub fn names_of(g: &TemporalGraph, ids: &Vec<NodeId>) -> (res: Vec<String>)
    requires
        forall|i: int| 0 <= i < ids@.len() ==> (#[trigger] ids@[i]) < g@.nodes.len(),
    ensures
        text::views(res@) == ids@.map_values(name_in(g@)),
{
    let mut out: Vec<String> = Vec::new();
    let mut i: usize = 0;
    while i < ids.len()
        invariant
            i <= ids@.len(),
            forall|i: int| 0 <= i < ids@.len() ==> (#[trigger] ids@[i]) < g@.nodes.len(),
            out@.len() == i,
            forall|k: int| 0 <= k < i ==> (#[trigger] out@[k])@ == g@.nodes[ids@[k] as int].name,
        decreases ids@.len() - i,
    {
        out.push(g.node_name(ids[i]).to_owned());
        i += 1;
    }
    assert(text::views(out@) =~= ids@.map_values(name_in(g@)));
    out
}

/// The names of the nodes that tokens lead to.
pub fn match_by_tokens(g: &TemporalGraph, tokens: &Vec<String>, limit: usize) -> (res: Vec<String>)
    requires
        g.wf(),
    ensures
        exists|ids: Seq<NodeId>|
            #![trigger ids.map_values(name_in(g@))]
            names::smallest(
                ids,
                names::token_hits(
                    names::token_index(g@.names()),
                    text::views(tokens@),
                    names::hit_cap(limit),
                ),
                limit as nat,
            ) && text::views(res@) == ids.map_values(name_in(g@)),
{
    let ids = g.match_tokens(tokens, limit);
    names_of(g, &ids)
}

/// The body of a search's response.
pub fn match_body(hits: &Vec<String>) -> (res: String)
    ensures
        res@ == json::json_text(
            JsonV::Obj(
                seq![("nodes"@, JsonV::Arr(text::views(hits@).map_values(str_item())))],
            ),
        ),
{
    object1("nodes", list_json(hits)).text()
}

// ---------------------------------------------------------------------------
// The page of a graph
// ---------------------------------------------------------------------------

pub open spec fn node_row(g: GraphV) -> spec_fn(int) -> JsonV {
    |id: int|
        JsonV::Obj(
            seq![
                ("id"@, JsonV::Num(text::decimal(id as nat))),
                ("name"@, JsonV::Str(g.nodes[id].name)),
                ("type"@, JsonV::Str(g.type_of(id as u32))),
            ],
        )
}

/// A record of an edge on the page; its weight is the text of a number.
pub open spec fn edge_row(g: GraphV, eid: EdgeId, weight: Seq<char>) -> JsonV {
    let e = g.edges[eid as int];
    JsonV::Obj(
        seq![
            ("kind"@, JsonV::Str(g.kinds[e.kind_id as int])),
            ("open"@, JsonV::Bool(e.valid_to == T_MAX)),
            ("source"@, JsonV::Num(text::decimal(e.src as nat))),
            ("target"@, JsonV::Num(text::decimal(e.dst as nat))),
            ("weight"@, JsonV::Num(weight)),
        ],
    )
}

/// The page of a graph: all nodes, and the listed edges with their weights.
pub open spec fn graph_json(
    g: GraphV,
    eids: Seq<EdgeId>,
    weights: Seq<Seq<char>>,
    limit: nat,
) -> JsonV {
    JsonV::Obj(
        seq![
            (
                "edges"@,
                JsonV::Arr(Seq::new(eids.len(), |i: int| edge_row(g, eids[i], weights[i]))),
            ),
            ("nodes"@, JsonV::Arr(Seq::new(g.nodes.len(), |i: int| node_row(g)(i)))),
            ("truncated"@, JsonV::Bool(eids.len() >= limit)),
        ],
    )
}

fn node_row_json(g: &TemporalGraph, id: NodeId) -> (res: Json)
    requires
        g.wf(),
        id < g@.nodes.len(),
    ensures
        res@ == node_row(g@)(id as int),
{
    crate::rpc::object3(
        "id",
        count_json(id as u64),
        "name",
        str_json(g.node_name(id)),
        "type",
        str_json(g.node_type(id)),
    )
}

fn edge_row_json(g: &TemporalGraph, eid: EdgeId, weight: &str) -> (res: Json)
    requires
        g.wf(),
        eid < g@.edges.len(),
    ensures
        res@ == edge_row(g@, eid, weight@),
{
    proof {
        g.lemma_wf();
    }
    let e = *g.edge(eid);
    let fields: Vec<(String, Json)> = vec![
        ("kind".to_owned(), str_json(g.kind_str(e.kind_id))),
        ("open".to_owned(), Json::Bool(e.valid_to == T_MAX)),
        ("source".to_owned(), count_json(e.src as u64)),
        ("target".to_owned(), count_json(e.dst as u64)),
        ("weight".to_owned(), Json::Num(weight.to_owned())),
    ];
    let res = Json::Obj(fields);
    proof {
        json::lemma_json_view(res);
        assert(json::fields_view(fields@) =~= edge_row(g@, eid, weight@)->Obj_0);
    }
    res
}

/// The page of a graph.
pub fn graph_page(
    g: &TemporalGraph,
    eids: &Vec<EdgeId>,
    weights: &Vec<String>,
    limit: usize,
) -> (res: Json)
    requires
        g.wf(),
        weights@.len() == eids@.len(),
        forall|i: int| 0 <= i < eids@.len() ==> (#[trigger] eids@[i]) < g@.edges.len(),
    ensures
        res@ == graph_json(g@, eids@, text::views(weights@), limit as nat),
{
    let ghost ws = text::views(weights@);
    proof {
        g.lemma_wf();
    }
    let mut nodes: Vec<Json> = Vec::new();
    let n: usize = g.node_count();
    let mut i: usize = 0;
    while i < n
        invariant
            i <= n,
            n == g@.nodes.len(),
            n <= u32::MAX,
            g.wf(),
            nodes@.len() == i,
            forall|k: int| 0 <= k < i ==> (#[trigger] nodes@[k])@ == node_row(g@)(k),
        decreases n - i,
    {
        nodes.push(node_row_json(g, i as u32));
        i += 1;
    }
    let mut edges: Vec<Json> = Vec::new();
    let mut k: usize = 0;
    while k < eids.len()
        invariant
            k <= eids@.len(),
            g.wf(),
            weights@.len() == eids@.len(),
            ws == text::views(weights@),
            forall|i: int| 0 <= i < eids@.len() ==> (#[trigger] eids@[i]) < g@.edges.len(),
            edges@.len() == k,
            forall|j: int|
                0 <= j < k ==> (#[trigger] edges@[j])@ == edge_row(g@, eids@[j], ws[j]),
        decreases eids@.len() - k,
    {
        assert(ws[k as int] == weights@[k as int]@);
        edges.push(edge_row_json(g, eids[k], weights[k].as_str()));
        k += 1;
    }
    let truncated = eids.len() >= limit;
    let ej = Json::Arr(edges);
    let nj = Json::Arr(nodes);
    proof {
        json::lemma_json_view(ej);
        json::lemma_json_view(nj);
        assert(json::items_view(edges@) =~= Seq::new(
            eids@.len(),
            |i: int| edge_row(g@, eids@[i], ws[i]),
        ));
        assert(json::items_view(nodes@) =~= Seq::new(g@.nodes.len(), |i: int| node_row(g@)(i)));
    }
    crate::rpc::object3("edges", ej, "nodes", nj, "truncated", Json::Bool(truncated))
}

// ---------------------------------------------------------------------------
// Bodies of other responses
// ---------------------------------------------------------------------------

/// The body of the response to a batch of facts.
pub fn ingest_body(stale: &Vec<String>, nodes: usize, edges: usize) -> (res: String)
    ensures
        res@ == json::json_text(
            JsonV::Obj(
                seq![
                    ("edges"@, JsonV::Num(text::decimal(edges as nat))),
                    ("nodes"@, JsonV::Num(text::decimal(nodes as nat))),
                    ("stale_retired"@, JsonV::Arr(text::views(stale@).map_values(str_item()))),
                ],
            ),
        ),
{
    crate::rpc::object3(
        "edges",
        count_json(edges as u64),
        "nodes",
        count_json(nodes as u64),
        "stale_retired",
        list_json(stale),
    ).text()
}

/// The body of the response to a touch.
pub fn touch_body(touched: usize, missed: usize) -> (res: String)
    ensures
        res@ == json::json_text(
            JsonV::Obj(
                seq![
                    ("missed"@, JsonV::Num(text::decimal(missed as nat))),
                    ("touched"@, JsonV::Num(text::decimal(touched as nat))),
                ],
            ),
        ),
{
    object2("missed", count_json(missed as u64), "touched", count_json(touched as u64)).text()
}

/// A database in the list of databases.
pub enum DbState {
    Closed,
    /// It is being written to.
    Busy,
    Open {
        nodes: usize,
        edges: usize,
        traces: usize,
        idem_entries: usize,
        wedged: Option<String>,
        approx_bytes: usize,
    },
}

pub open spec fn text_or_null(s: Option<Seq<char>>) -> JsonV {
    match s {
        Some(t) => JsonV::Str(t),
        None => JsonV::Null,
    }
}

/// A database in the list of databases.
pub open spec fn db_row(name: Seq<char>, state: DbState) -> JsonV {
    match state {
        DbState::Closed => JsonV::Obj(
            seq![("db"@, JsonV::Str(name)), ("open"@, JsonV::Bool(false))],
        ),
        DbState::Busy => JsonV::Obj(
            seq![
                ("busy"@, JsonV::Bool(true)),
                ("db"@, JsonV::Str(name)),
                ("open"@, JsonV::Bool(true)),
            ],
        ),
        DbState::Open { nodes, edges, traces, idem_entries, wedged, approx_bytes } => JsonV::Obj(
            seq![
                ("approx_bytes"@, JsonV::Num(text::decimal(approx_bytes as nat))),
                ("db"@, JsonV::Str(name)),
                ("edges"@, JsonV::Num(text::decimal(edges as nat))),
                ("idem_entries"@, JsonV::Num(text::decimal(idem_entries as nat))),
                ("nodes"@, JsonV::Num(text::decimal(nodes as nat))),
                ("open"@, JsonV::Bool(true)),
                ("traces"@, JsonV::Num(text::decimal(traces as nat))),
                ("wedged"@, text_or_null(graph::label_view(wedged))),
            ],
        ),
    }
}

/// A database in the list of databases.
pub fn db_row_json(name: &str, state: &DbState) -> (res: Json)
    ensures
        res@ == db_row(name@, *state),
{
    match state {
        DbState::Closed => object2("db", str_json(name), "open", Json::Bool(false)),
        DbState::Busy => crate::rpc::object3(
            "busy",
            Json::Bool(true),
            "db",
            str_json(name),
            "open",
            Json::Bool(true),
        ),
        DbState::Open { nodes, edges, traces, idem_entries, wedged, approx_bytes } => {
            let w = match wedged {
                Some(e) => str_json(e.as_str()),
                None => Json::Null,
            };
            let fields: Vec<(String, Json)> = vec![
                ("approx_bytes".to_owned(), count_json(*approx_bytes as u64)),
                ("db".to_owned(), str_json(name)),
                ("edges".to_owned(), count_json(*edges as u64)),
                ("idem_entries".to_owned(), count_json(*idem_entries as u64)),
                ("nodes".to_owned(), count_json(*nodes as u64)),
                ("open".to_owned(), Json::Bool(true)),
                ("traces".to_owned(), count_json(*traces as u64)),
                ("wedged".to_owned(), w),
            ];
            let res = Json::Obj(fields);
            proof {
                json::lemma_json_view(res);
                assert(json::fields_view(fields@) =~= db_row(name@, *state)->Obj_0);
            }
            res
        },
    }
}

// ---------------------------------------------------------------------------
// Gauges
// ---------------------------------------------------------------------------

/// The state of a database as gauges; numbers with a fraction are texts.
pub struct Gauges {
    pub db: String,
    pub nodes: usize,
    pub edges_live: usize,
    pub edges_dead: usize,
    pub lambda_scale: String,
    pub ewma_mass: String,
    pub traces: usize,
    pub wedged: bool,
    pub wal_lsn: u64,
    pub approx_bytes: usize,
}

/// One gauge of a database.
pub open spec fn gauge(name: Seq<char>, db: Seq<char>, value: Seq<char>) -> Seq<char> {
    "psyrag_db_"@ + name + "{db=\""@ + db + "\"} "@ + value + "\n"@
}

pub open spec fn bit(b: bool) -> Seq<char> {
    if b {
        "1"@
    } else {
        "0"@
    }
}

/// The gauges of a database.
pub open spec fn gauges_text(d: Gauges) -> Seq<char> {
    gauge("nodes"@, d.db@, text::decimal(d.nodes as nat)) + gauge(
        "edges_live"@,
        d.db@,
        text::decimal(d.edges_live as nat),
    ) + gauge("edges_dead"@, d.db@, text::decimal(d.edges_dead as nat)) + gauge(
        "lambda_scale"@,
        d.db@,
        d.lambda_scale@,
    ) + gauge("ewma_mass"@, d.db@, d.ewma_mass@) + gauge(
        "traces"@,
        d.db@,
        text::decimal(d.traces as nat),
    ) + gauge("wedged"@, d.db@, bit(d.wedged)) + gauge(
        "wal_lsn"@,
        d.db@,
        text::decimal(d.wal_lsn as nat),
    ) + gauge("approx_bytes"@, d.db@, text::decimal(d.approx_bytes as nat))
}

fn push_gauge(out: &mut String, name: &str, db: &str, value: &str)
    ensures
        final(out)@ == old(out)@ + gauge(name@, db@, value@),
{
    let ghost start = out@;
    out.append("psyrag_db_");
    out.append(name);
    out.append("{db=\"");
    out.append(db);
    out.append("\"} ");
    out.append(value);
    out.append("\n");
    assert(out@ =~= start + gauge(name@, db@, value@));
}

/// Appends the gauges of a database.
pub fn push_gauges(out: &mut String, d: &Gauges)
    ensures
        final(out)@ == old(out)@ + gauges_text(*d),
{
    let ghost start = out@;
    let db = d.db.as_str();
    push_gauge(out, "nodes", db, decimal_text(d.nodes as u64).as_str());
    push_gauge(out, "edges_live", db, decimal_text(d.edges_live as u64).as_str());
    push_gauge(out, "edges_dead", db, decimal_text(d.edges_dead as u64).as_str());
    push_gauge(out, "lambda_scale", db, d.lambda_scale.as_str());
    push_gauge(out, "ewma_mass", db, d.ewma_mass.as_str());
    push_gauge(out, "traces", db, decimal_text(d.traces as u64).as_str());
    let w = if d.wedged {
        "1"
    } else {
        "0"
    };
    push_gauge(out, "wedged", db, w);
    push_gauge(out, "wal_lsn", db, decimal_text(d.wal_lsn).as_str());
    push_gauge(out, "approx_bytes", db, decimal_text(d.approx_bytes as u64).as_str());
    assert(out@ =~= start + gauges_text(*d));
}

pub open spec fn uptime_text(secs: u64) -> Seq<char> {
    "# TYPE psyrag_uptime_seconds gauge\npsyrag_uptime_seconds "@ + text::decimal(secs as nat)
        + "\n"@
}

/// What comes before the gauges of databases.
pub open spec fn gauges_head(open: usize, budget: usize) -> Seq<char> {
    "# TYPE psyrag_open_dbs gauge\npsyrag_open_dbs "@ + text::decimal(open as nat) + "\n"@
        + "# TYPE psyrag_db_nodes gauge\n# TYPE psyrag_db_edges_live gauge\n# TYPE psyrag_db_edges_dead gauge\n# TYPE psyrag_db_lambda_scale gauge\n# TYPE psyrag_db_ewma_mass gauge\n# TYPE psyrag_db_traces gauge\n# TYPE psyrag_db_wedged gauge\n# TYPE psyrag_db_wal_lsn gauge\n# TYPE psyrag_db_approx_bytes gauge\n"@
        + if budget > 0 {
        "# TYPE psyrag_mem_budget_bytes gauge\npsyrag_mem_budget_bytes "@ + text::decimal(
            budget as nat,
        ) + "\n"@
    } else {
        Seq::empty()
    }
}

pub open spec fn all_gauges(dbs: Seq<Gauges>) -> Seq<char>
    decreases dbs.len(),
{
    if dbs.len() == 0 {
        Seq::empty()
    } else {
        all_gauges(dbs.drop_last()) + gauges_text(dbs.last())
    }
}

/// The metrics of a server in the Prometheus text format.
pub fn metrics_page(
    uptime_secs: u64,
    requests: &crate::prom::RequestMetrics,
    open: usize,
    budget: usize,
    dbs: &Vec<Gauges>,
) -> (res: String)
    requires
        requests.wf(),
    ensures
        res@ == uptime_text(uptime_secs) + crate::prom::rendered(requests.view()) + gauges_head(
            open,
            budget,
        ) + all_gauges(dbs@),
{
    let mut out = String::new();
    out.append("# TYPE psyrag_uptime_seconds gauge\npsyrag_uptime_seconds ");
    out.append(decimal_text(uptime_secs).as_str());
    out.append("\n");
    assert(out@ =~= uptime_text(uptime_secs));
    requests.render(&mut out);
    let ghost first = out@;
    out.append("# TYPE psyrag_open_dbs gauge\npsyrag_open_dbs ");
    out.append(decimal_text(open as u64).as_str());
    out.append("\n");
    out.append(
        "# TYPE psyrag_db_nodes gauge\n# TYPE psyrag_db_edges_live gauge\n# TYPE psyrag_db_edges_dead gauge\n# TYPE psyrag_db_lambda_scale gauge\n# TYPE psyrag_db_ewma_mass gauge\n# TYPE psyrag_db_traces gauge\n# TYPE psyrag_db_wedged gauge\n# TYPE psyrag_db_wal_lsn gauge\n# TYPE psyrag_db_approx_bytes gauge\n",
    );
    if budget > 0 {
        out.append("# TYPE psyrag_mem_budget_bytes gauge\npsyrag_mem_budget_bytes ");
        out.append(decimal_text(budget as u64).as_str());
        out.append("\n");
    }
    let ghost head = out@;
    assert(head =~= first + gauges_head(open, budget));
    let mut i: usize = 0;
    assert(out@ =~= head + all_gauges(dbs@.take(0)));
    while i < dbs.len()
        invariant
            i <= dbs@.len(),
            out@ == head + all_gauges(dbs@.take(i as int)),
        decreases dbs@.len() - i,
    {
        assert(dbs@.take(i + 1).drop_last() =~= dbs@.take(i as int));
        assert(dbs@.take(i + 1).last() == dbs@[i as int]);
        push_gauges(&mut out, &dbs[i]);
        i += 1;
        assert(out@ =~= head + all_gauges(dbs@.take(i as int)));
    }
    assert(dbs@.take(dbs@.len() as int) =~= dbs@);
    out
}

} // verus!
