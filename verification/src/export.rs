//! The graph as files for an analytical store: nodes and edges as lines of
//! JSON, and the scripts that load and query them.

use crate::graph::TemporalGraph;
use crate::json;
use crate::json::{Json, JsonV};
use crate::model::{EdgeId, GraphV, NodeId, Ts, T_MAX};
use crate::rpc::{int_json, object2, str_json};
use crate::text;
use crate::touch;
use vstd::prelude::*;

verus! {

pub const SCHEMA: [&'static str; 10] = [
    "-- BigQuery schema for psyrag-graph-plasticity export.\n-- Load the NDJSON files into these tables (see load.sh), then query the\n-- property graph with GQL.\n\nCREATE SCHEMA IF NOT EXISTS `",
    "`;\n\nCREATE TABLE IF NOT EXISTS `",
    ".nodes` (\n  name STRING NOT NULL,\n  type STRING\n);\n\nCREATE TABLE IF NOT EXISTS `",
    ".edges` (\n  src STRING NOT NULL,\n  dst STRING NOT NULL,\n  kind STRING,\n  weight FLOAT64,        -- LEARNED salience (higher = surfaced-and-useful more often)\n  open BOOL,             -- currently valid (not superseded)\n  valid_from INT64,      -- transaction time (ms)\n  valid_to INT64,        -- NULL while open\n  exported_at INT64\n);\n\nCREATE TABLE IF NOT EXISTS `",
    ".traces` (\n  id INT64,\n  t INT64,\n  surfaced JSON,\n  edges_fired INT64\n);\n\n-- Property graph: query learned dependencies with GQL.\nCREATE OR REPLACE PROPERTY GRAPH `",
    ".dgp_graph`\n  NODE TABLES (\n    `",
    ".nodes` KEY (name) LABEL Resource PROPERTIES (name, type)\n  )\n  EDGE TABLES (\n    `",
    ".edges`\n      KEY (src, dst, kind)\n      SOURCE KEY (src) REFERENCES `",
    ".nodes` (name)\n      DESTINATION KEY (dst) REFERENCES `",
    ".nodes` (name)\n      LABEL DependsOn PROPERTIES (src, dst, kind, weight, open)\n  );\n",
];

pub const QUERIES: [&'static str; 4] = [
    "-- Example analytics over the LEARNED graph (BigQuery GQL + SQL).\n\n-- 1) Top-20 most salient (learned-useful) dependencies, plain SQL:\nSELECT src, kind, dst, weight\nFROM `",
    ".edges`\nWHERE open\nORDER BY weight DESC\nLIMIT 20;\n\n-- 2) GQL: for a failing resource, the highest-salience downstream paths\n--    (the dependencies that repeatedly mattered during real incidents):\nSELECT dep_path, total_weight\nFROM GRAPH_TABLE(`",
    ".dgp_graph`\n  MATCH p = (a:Resource {name: 'api'})-[e:DependsOn]->{1,3}(b:Resource)\n  WHERE e.open\n  COLUMNS (\n    TO_JSON_STRING(ARRAY_AGG(b.name)) AS dep_path,\n    SUM(e.weight) AS total_weight\n  )\n)\nORDER BY total_weight DESC\nLIMIT 10;\n\n-- 3) Where is salience concentrating? Per-source share of learned weight:\nSELECT src,\n       COUNTIF(open) AS live_edges,\n       ROUND(MAX(weight), 4) AS top_weight,\n       ROUND(SAFE_DIVIDE(MAX(weight), SUM(weight)), 3) AS concentration\nFROM `",
    ".edges`\nWHERE open\nGROUP BY src\nORDER BY top_weight DESC\nLIMIT 20;\n",
];

pub const LOAD: [&'static str; 2] = [
    "#!/usr/bin/env bash\n# Load the exported graph into BigQuery. Requires the `bq` CLI + auth.\n#   export GOOGLE_CLOUD_PROJECT=your-project\nset -euo pipefail\nDS=\"${1:-",
    "}\"\nLOC=\"${2:-US}\"\n\nbq --location=\"$LOC\" mk -f --dataset \"$DS\" || true\nbq load --source_format=NEWLINE_DELIMITED_JSON --autodetect \"$DS.nodes\"  nodes.jsonl\nbq load --source_format=NEWLINE_DELIMITED_JSON --autodetect \"$DS.edges\"  edges.jsonl\nbq load --source_format=NEWLINE_DELIMITED_JSON --autodetect \"$DS.traces\" traces.jsonl\necho \">> loaded. Create the property graph:\"\necho \"   bq query --use_legacy_sql=false < schema.sql\"\n",
];

pub open spec fn str_texts(s: Seq<&'static str>) -> Seq<Seq<char>> {
    s.map_values(|x: &'static str| x@)
}

/// Texts with `fill` between them.
pub open spec fn interleaved(parts: Seq<Seq<char>>, fill: Seq<char>) -> Seq<char>
    decreases parts.len(),
{
    if parts.len() == 0 {
        Seq::empty()
    } else if parts.len() == 1 {
        parts[0]
    } else {
        interleaved(parts.drop_last(), fill) + fill + parts.last()
    }
}

fn filled(parts: &[&'static str], fill: &str) -> (res: String)
    ensures
        res@ == interleaved(str_texts(parts@), fill@),
{
    let ghost ps = str_texts(parts@);
    let mut out = String::new();
    let mut i: usize = 0;
    assert(ps.take(0) =~= Seq::empty());
    assert(out@ =~= Seq::empty());
    while i < parts.len()
        invariant
            i <= parts@.len(),
            ps == str_texts(parts@),
            out@ == interleaved(ps.take(i as int), fill@),
        decreases parts@.len() - i,
    {
        let ghost before = out@;
        if i > 0 {
            out.append(fill);
        }
        out.append(parts[i]);
        proof {
            assert(ps.take(i + 1).drop_last() =~= ps.take(i as int));
            assert(ps.take(i + 1).last() == parts@[i as int]@);
            if i == 0 {
                assert(out@ =~= ps.take(1)[0]);
            } else {
                assert(out@ =~= before + fill@ + parts@[i as int]@);
            }
        }
        i += 1;
    }
    assert(ps.take(ps.len() as int) =~= ps);
    out
}

/// The tables, and the property graph over them.
pub fn schema_sql(dataset: &str) -> (res: String)
    ensures
        res@ == interleaved(str_texts(SCHEMA@), dataset@),
{
    filled(SCHEMA.as_slice(), dataset)
}

/// Queries over the learned graph.
pub fn queries_gql(dataset: &str) -> (res: String)
    ensures
        res@ == interleaved(str_texts(QUERIES@), dataset@),
{
    filled(QUERIES.as_slice(), dataset)
}

/// The script that loads the files.
pub fn load_sh(dataset: &str) -> (res: String)
    ensures
        res@ == interleaved(str_texts(LOAD@), dataset@),
{
    filled(LOAD.as_slice(), dataset)
}

/// A node as a document.
pub open spec fn node_json(g: GraphV, id: int) -> JsonV {
    JsonV::Obj(
        seq![
            ("name"@, JsonV::Str(g.nodes[id].name)),
            ("type"@, JsonV::Str(g.type_of(id as u32))),
        ],
    )
}

/// The first `n` nodes, a line for each.
pub open spec fn nodes_text(g: GraphV, n: int) -> Seq<char>
    decreases n,
{
    if n <= 0 {
        Seq::empty()
    } else {
        nodes_text(g, n - 1) + json::json_text(node_json(g, n - 1)) + seq!['\n']
    }
}

/// The nodes, a line for each.
pub fn nodes_jsonl(g: &TemporalGraph) -> (res: String)
    requires
        g.wf(),
    ensures
        res@ == nodes_text(g@, g@.nodes.len() as int),
{
    let mut out = String::new();
    let mut i: usize = 0;
    let n: usize = g.node_count();
    proof {
        g.lemma_wf();
    }
    assert(out@ =~= nodes_text(g@, 0));
    while i < n
        invariant
            i <= n,
            n == g@.nodes.len(),
            n <= u32::MAX,
            g.wf(),
            out@ == nodes_text(g@, i as int),
        decreases n - i,
    {
        let id: NodeId = i as u32;
        let ghost before = out@;
        let j = object2("name", str_json(g.node_name(id)), "type", str_json(g.node_type(id)));
        j.write(&mut out);
        out.push('\n');
        i += 1;
        assert(out@ =~= before + json::json_text(node_json(g@, i - 1)) + seq!['\n']);
    }
    out
}

/// The records of edges, by the node that they leave.
pub open spec fn listed(g: GraphV, n: int) -> Seq<EdgeId>
    decreases n,
{
    if n <= 0 {
        Seq::empty()
    } else {
        listed(g, n - 1) + g.out_ids((n - 1) as u32)
    }
}

/// The first `limit` records of edges, by the node that they leave.
pub fn list_edges(g: &TemporalGraph, limit: usize) -> (res: Vec<EdgeId>)
    requires
        g.wf(),
    ensures
        res@ == touch::first(listed(g@, g@.nodes.len() as int), limit as nat),
        forall|i: int| 0 <= i < res@.len() ==> (#[trigger] res@[i]) < g@.edges.len(),
{
    let mut out: Vec<EdgeId> = Vec::new();
    let mut u: usize = 0;
    let n: usize = g.node_count();
    proof {
        g.lemma_wf();
    }
    while u < n
        invariant
            u <= n,
            n == g@.nodes.len(),
            n <= u32::MAX,
            g.wf(),
            out@ == touch::first(listed(g@, u as int), limit as nat),
            forall|i: int| 0 <= i < out@.len() ==> (#[trigger] out@[i]) < g@.edges.len(),
        decreases n - u,
    {
        let ids = g.out_edge_ids(u as u32);
        let ghost base = listed(g@, u as int);
        proof {
            g.lemma_wf();
            crate::model::lemma_edge_ids(g@.edges, crate::model::leaves(u as u32));
        }
        let mut k: usize = 0;
        assert(base + ids@.take(0) =~= base);
        while k < ids.len()
            invariant
                k <= ids@.len(),
                ids@ == g@.out_ids(u as u32),
                forall|i: int| 0 <= i < ids@.len() ==> (#[trigger] ids@[i]) < g@.edges.len(),
                out@ == touch::first(base + ids@.take(k as int), limit as nat),
                forall|i: int| 0 <= i < out@.len() ==> (#[trigger] out@[i]) < g@.edges.len(),
            decreases ids@.len() - k,
        {
            let ghost before = base + ids@.take(k as int);
            if out.len() < limit {
                out.push(ids[k]);
            }
            assert(base + ids@.take(k + 1) =~= before.push(ids@[k as int]));
            assert(out@ =~= touch::first(before.push(ids@[k as int]), limit as nat));
            k += 1;
        }
        assert(ids@.take(ids@.len() as int) =~= ids@);
        u += 1;
    }
    out
}

pub open spec fn end_json(t: Ts) -> JsonV {
    if t == T_MAX {
        JsonV::Null
    } else {
        JsonV::Num(text::decimal_int(t as int))
    }
}

/// A record of an edge as a document; its weight is the text of a number.
pub open spec fn edge_json(g: GraphV, eid: EdgeId, weight: Seq<char>, ts: Ts) -> JsonV {
    let e = g.edges[eid as int];
    JsonV::Obj(
        seq![
            ("dst"@, JsonV::Str(g.nodes[e.dst as int].name)),
            ("exported_at"@, JsonV::Num(text::decimal_int(ts as int))),
            ("kind"@, JsonV::Str(g.kinds[e.kind_id as int])),
            ("open"@, JsonV::Bool(e.valid_to == T_MAX)),
            ("src"@, JsonV::Str(g.nodes[e.src as int].name)),
            ("valid_from"@, JsonV::Num(text::decimal_int(e.valid_from as int))),
            ("valid_to"@, end_json(e.valid_to)),
            ("weight"@, JsonV::Num(weight)),
        ],
    )
}

/// A record of an edge as a line.
pub fn edge_line(g: &TemporalGraph, eid: EdgeId, weight: &str, ts: Ts) -> (res: String)
    requires
        g.wf(),
        eid < g@.edges.len(),
    ensures
        res@ == json::json_text(edge_json(g@, eid, weight@, ts)),
{
    proof {
        g.lemma_wf();
    }
    let e = *g.edge(eid);
    let end = if e.valid_to == T_MAX {
        Json::Null
    } else {
        int_json(e.valid_to)
    };
    let fields: Vec<(String, Json)> = vec![
        ("dst".to_owned(), str_json(g.node_name(e.dst))),
        ("exported_at".to_owned(), int_json(ts)),
        ("kind".to_owned(), str_json(g.kind_str(e.kind_id))),
        ("open".to_owned(), Json::Bool(e.valid_to == T_MAX)),
        ("src".to_owned(), str_json(g.node_name(e.src))),
        ("valid_from".to_owned(), int_json(e.valid_from)),
        ("valid_to".to_owned(), end),
        ("weight".to_owned(), Json::Num(weight.to_owned())),
    ];
    let j = Json::Obj(fields);
    proof {
        json::lemma_json_view(j);
        assert(json::fields_view(fields@) =~= edge_json(g@, eid, weight@, ts)->Obj_0);
    }
    j.text()
}

} // verus!
