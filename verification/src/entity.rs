//! Entities: the domain-agnostic record format.
//!
//! ```json
//! {
//!   "name": "sensor/kitchen-motion-1",
//!   "type": "zigbee/MotionSensor",
//!   "props": { "battery": 87, "fw": "1.4.2" },
//!   "origin": "user:alice/session:42",
//!   "edges": [
//!     { "dst": "hub/main", "kind": "PAIRED_WITH" },
//!     { "dst": "automation/kitchen-lights", "kind": "TRIGGERS",
//!       "dst_type": "ha/Automation" }
//!   ]
//! }
//! ```
//!
//! An entity asserts its own existence; the targets of its edges are
//! placeholders until their own records arrive.

use crate::graph;
use crate::graph::{Op, TemporalGraph};
use crate::json;
use crate::json::{Json, JsonV};
use crate::model;
use crate::model::{OpV, Ts};
use crate::query;
use crate::records;
use crate::records::{documents, label_of_part, text_of_part};
use crate::snapshot;
use crate::snapshot::{ingest_snapshot_ops, Batch, OpSink};
use crate::text;
use vstd::prelude::*;

verus! {

/// A record of one entity.
#[derive(Debug)]
pub struct Entity {
    pub name: String,
    pub entity_type: String,
    pub props: Json,
    pub edges: Vec<EntityEdge>,
    /// Provenance label, which takes precedence over that of the batch.
    pub origin: Option<String>,
}

/// An edge that an entity asserts.
#[derive(Debug)]
pub struct EntityEdge {
    pub dst: String,
    pub kind: String,
    pub dst_type: Option<String>,
}

/// The mathematical form of an [`EntityEdge`].
pub struct EntityEdgeV {
    pub dst: Seq<char>,
    pub kind: Seq<char>,
    pub dst_type: Option<Seq<char>>,
}

/// The mathematical form of an [`Entity`].
pub struct EntityV {
    pub name: Seq<char>,
    pub entity_type: Seq<char>,
    pub props: JsonV,
    pub edges: Seq<EntityEdgeV>,
    pub origin: Option<Seq<char>>,
}

impl View for EntityEdge {
    type V = EntityEdgeV;

    open spec fn view(&self) -> EntityEdgeV {
        EntityEdgeV {
            dst: self.dst@,
            kind: self.kind@,
            dst_type: graph::label_view(self.dst_type),
        }
    }
}

pub open spec fn edge_views(v: Seq<EntityEdge>) -> Seq<EntityEdgeV> {
    v.map_values(|e: EntityEdge| e@)
}

impl View for Entity {
    type V = EntityV;

    open spec fn view(&self) -> EntityV {
        EntityV {
            name: self.name@,
            entity_type: self.entity_type@,
            props: self.props@,
            edges: edge_views(self.edges@),
            origin: graph::label_view(self.origin),
        }
    }
}

pub open spec fn entity_views(v: Seq<Entity>) -> Seq<EntityV> {
    v.map_values(|e: Entity| e@)
}

/// The label of an entity: its own, or that of the batch.
pub open spec fn label_of(e: EntityV, origin: Option<Seq<char>>) -> Option<Seq<char>> {
    match e.origin {
        Some(o) => Some(o),
        None => origin,
    }
}

/// The mutations for the edges of an entity: the target as a placeholder, of
/// the type given or unknown, then the edge.
pub open spec fn edge_ops(
    name: Seq<char>,
    edges: Seq<EntityEdgeV>,
    ts: Ts,
    origin: Option<Seq<char>>,
) -> Seq<OpV>
    decreases edges.len(),
{
    if edges.len() == 0 {
        Seq::empty()
    } else {
        let e = edges.last();
        edge_ops(name, edges.drop_last(), ts, origin).push(
            OpV::ObservePlaceholder {
                name: e.dst,
                inferred_type: match e.dst_type {
                    Some(t) => t,
                    None => model::unknown_type(),
                },
                ts,
                origin,
            },
        ).push(OpV::ObserveEdge { src: name, dst: e.dst, kind: e.kind, ts, origin })
    }
}

/// The mutations for an entity: the entity itself, then its edges.
pub open spec fn ops_of(e: EntityV, ts: Ts, origin: Option<Seq<char>>) -> Seq<OpV> {
    let o = label_of(e, origin);
    seq![
        OpV::ObserveNode {
            name: e.name,
            asset_type: e.entity_type,
            props: e.props,
            ts,
            origin: o,
        },
    ] + edge_ops(e.name, e.edges, ts, o)
}

/// A label of its own.
pub fn copy_label(o: &Option<String>) -> (res: Option<String>)
    ensures
        graph::label_view(res) == graph::label_view(*o),
{
    match o {
        Some(s) => Some(s.clone()),
        None => None,
    }
}

/// Translates one entity into mutations. It asserts itself alone.
pub fn entity_ops(e: &Entity, ts: Ts, origin: Option<&str>) -> (res: Batch)
    ensures
        snapshot::op_views(res.0@) == ops_of(e@, ts, graph::str_view(origin)),
        text::views(res.1@) == seq![e@.name],
{
    let ghost label = label_of(e@, graph::str_view(origin));
    let own: Option<String> = match &e.origin {
        Some(s) => Some(s.clone()),
        None => match origin {
            Some(s) => Some(s.to_owned()),
            None => None,
        },
    };
    assert(graph::label_view(own) == label);
    let mut ops: Vec<Op> = Vec::new();
    ops.push(
        Op::ObserveNode {
            name: e.name.clone(),
            asset_type: e.entity_type.clone(),
            props: e.props.copy(),
            ts,
            origin: copy_label(&own),
        },
    );
    let ghost edges = e@.edges;
    let ghost head = seq![ops@[0]@];
    let mut i: usize = 0;
    proof {
        assert(edges.take(0) =~= Seq::empty());
        assert(snapshot::op_views(ops@) =~= head + edge_ops(e@.name, edges.take(0), ts, label));
    }
    while i < e.edges.len()
        invariant
            i <= e.edges@.len(),
            edges == e@.edges,
            graph::label_view(own) == label,
            snapshot::op_views(ops@) == head + edge_ops(e@.name, edges.take(i as int), ts, label),
        decreases e.edges@.len() - i,
    {
        let x = &e.edges[i];
        let ghost before = ops@;
        let ty: String = match &x.dst_type {
            Some(t) => t.clone(),
            None => "unknown/unknown".to_owned(),
        };
        let a = Op::ObservePlaceholder {
            name: x.dst.clone(),
            inferred_type: ty,
            ts,
            origin: copy_label(&own),
        };
        let b = Op::ObserveEdge {
            src: e.name.clone(),
            dst: x.dst.clone(),
            kind: x.kind.clone(),
            ts,
            origin: copy_label(&own),
        };
        ops.push(a);
        ops.push(b);
        proof {
            assert(edges.take(i + 1).drop_last() =~= edges.take(i as int));
            assert(edges.take(i + 1).last() == x@);
            assert(snapshot::op_views(ops@) =~= snapshot::op_views(before).push(a@).push(b@));
            assert(snapshot::op_views(ops@) =~= head + edge_ops(
                e@.name,
                edges.take(i + 1),
                ts,
                label,
            ));
        }
        i += 1;
    }
    assert(edges.take(edges.len() as int) =~= edges);
    let mut asserted: Vec<String> = Vec::new();
    asserted.push(e.name.clone());
    assert(text::views(asserted@) =~= seq![e@.name]);
    (ops, asserted)
}

/// An edge record as an edge.
pub open spec fn edge_of(v: JsonV) -> Option<EntityEdgeV> {
    if !records::is_record(v, 3) {
        None
    } else {
        match (
            records::text_part(records::part_of(v, "dst"@, 0)),
            records::text_part(records::part_of(v, "kind"@, 1)),
            records::label_part(records::part_of(v, "dst_type"@, 2)),
        ) {
            (Some(dst), Some(kind), Some(dst_type)) => Some(EntityEdgeV { dst, kind, dst_type }),
            _ => None,
        }
    }
}

/// Edge records as edges: all of them, or none.
pub open spec fn edges_of(a: Seq<JsonV>) -> Option<Seq<EntityEdgeV>>
    decreases a.len(),
{
    if a.len() == 0 {
        Some(Seq::empty())
    } else {
        match (edges_of(a.drop_last()), edge_of(a.last())) {
            (Some(before), Some(e)) => Some(before.push(e)),
            _ => None,
        }
    }
}

pub open spec fn edges_part(v: Option<JsonV>) -> Option<Seq<EntityEdgeV>> {
    match v {
        None => Some(Seq::empty()),
        Some(JsonV::Arr(a)) => edges_of(a),
        _ => None,
    }
}

/// A document as an entity: name and type are strings and required; the rest
/// may be absent.
pub open spec fn entity_of(v: JsonV) -> Option<EntityV> {
    if !records::is_record(v, 5) {
        None
    } else {
        match (
            records::text_part(records::part_of(v, "name"@, 0)),
            records::text_part(records::part_of(v, "type"@, 1)),
            edges_part(records::part_of(v, "edges"@, 3)),
            records::label_part(records::part_of(v, "origin"@, 4)),
        ) {
            (Some(name), Some(entity_type), Some(edges), Some(origin)) => Some(
                EntityV {
                    name,
                    entity_type,
                    props: match records::part_of(v, "props"@, 2) {
                        Some(p) => p,
                        None => JsonV::Null,
                    },
                    edges,
                    origin,
                },
            ),
            _ => None,
        }
    }
}

/// Documents as entities: all of them, or none.
pub open spec fn entities_of(a: Seq<JsonV>) -> Option<Seq<EntityV>>
    decreases a.len(),
{
    if a.len() == 0 {
        Some(Seq::empty())
    } else {
        match (entities_of(a.drop_last()), entity_of(a.last())) {
            (Some(before), Some(e)) => Some(before.push(e)),
            _ => None,
        }
    }
}

pub open spec fn not_an_entity() -> Seq<char> {
    "a record is not an entity"@
}

/// The entities of a record file. Of a member that is repeated the last one
/// counts. JSON that is no entity is answered in words of this library, not of
/// `serde`.
pub open spec fn parsed(s: Seq<char>) -> Result<Seq<EntityV>, Seq<char>> {
    match records::documents_of(s) {
        Ok(docs) => match entities_of(docs) {
            Some(es) => Ok(es),
            None => Err(not_an_entity()),
        },
        Err(e) => Err(e),
    }
}

fn decode_edge(j: &Json) -> (res: Option<EntityEdge>)
    ensures
        match res {
            Some(e) => edge_of(j@) == Some(e@),
            None => edge_of(j@) is None,
        },
{
    if !j.record(3) {
        return None;
    }
    match (
        text_of_part(j.part("dst", 0)),
        text_of_part(j.part("kind", 1)),
        label_of_part(j.part("dst_type", 2)),
    ) {
        (Some(dst), Some(kind), Some(dst_type)) => Some(EntityEdge { dst, kind, dst_type }),
        _ => None,
    }
}

fn decode_edges(v: Option<&Json>) -> (res: Option<Vec<EntityEdge>>)
    ensures
        match res {
            Some(es) => edges_part(records::json_opt(v)) == Some(edge_views(es@)),
            None => edges_part(records::json_opt(v)) is None,
        },
{
    let mut out: Vec<EntityEdge> = Vec::new();
    assert(edge_views(out@) =~= Seq::empty());
    match v {
        None => Some(out),
        Some(j) => {
            proof {
                json::lemma_json_view(*j);
            }
            match j {
                Json::Arr(a) => {
                    let ghost docs = json::items_view(a@);
                    let mut i: usize = 0;
                    assert(docs.take(0) =~= Seq::empty());
                    while i < a.len()
                        invariant
                            i <= a@.len(),
                            docs == json::items_view(a@),
                            edges_of(docs.take(i as int)) == Some(edge_views(out@)),
                            edges_part(records::json_opt(v)) == edges_of(docs),
                        decreases a@.len() - i,
                    {
                        proof {
                            assert(docs.take(i + 1).drop_last() =~= docs.take(i as int));
                            assert(docs.take(i + 1).last() == a@[i as int]@);
                        }
                        match decode_edge(&a[i]) {
                            Some(e) => {
                                let ghost o = out@;
                                out.push(e);
                                assert(edge_views(out@) =~= edge_views(o).push(e@));
                            },
                            None => {
                                proof {
                                    lemma_edges_fail(docs, i + 1);
                                }
                                return None;
                            },
                        }
                        i += 1;
                    }
                    assert(docs.take(docs.len() as int) =~= docs);
                    Some(out)
                },
                _ => None,
            }
        },
    }
}

proof fn lemma_edges_fail(a: Seq<JsonV>, k: int)
    requires
        0 <= k <= a.len(),
        edges_of(a.take(k)) is None,
    ensures
        edges_of(a) is None,
    decreases a.len() - k,
{
    if k == a.len() {
        assert(a.take(k) =~= a);
    } else {
        assert(a.drop_last().take(k) =~= a.take(k));
        lemma_edges_fail(a.drop_last(), k);
    }
}

proof fn lemma_entities_fail(a: Seq<JsonV>, k: int)
    requires
        0 <= k <= a.len(),
        entities_of(a.take(k)) is None,
    ensures
        entities_of(a) is None,
    decreases a.len() - k,
{
    if k == a.len() {
        assert(a.take(k) =~= a);
    } else {
        assert(a.drop_last().take(k) =~= a.take(k));
        lemma_entities_fail(a.drop_last(), k);
    }
}

/// A document as an entity.
pub fn decode_entity(j: &Json) -> (res: Option<Entity>)
    ensures
        match res {
            Some(e) => entity_of(j@) == Some(e@),
            None => entity_of(j@) is None,
        },
{
    if !j.record(5) {
        return None;
    }
    let props: Json = match j.part("props", 2) {
        Some(p) => p.copy(),
        None => Json::Null,
    };
    match (
        text_of_part(j.part("name", 0)),
        text_of_part(j.part("type", 1)),
        decode_edges(j.part("edges", 3)),
        label_of_part(j.part("origin", 4)),
    ) {
        (Some(name), Some(entity_type), Some(edges), Some(origin)) => Some(
            Entity { name, entity_type, props, edges, origin },
        ),
        _ => None,
    }
}

/// Reads entities from a JSON array, or from one document per line.
pub fn parse_entities(s: &str) -> (res: Result<Vec<Entity>, String>)
    ensures
        match res {
            Ok(es) => parsed(s@) == Ok::<Seq<EntityV>, Seq<char>>(entity_views(es@)),
            Err(e) => parsed(s@) == Err::<Seq<EntityV>, Seq<char>>(e@),
        },
{
    let a = match documents(s) {
        Ok(v) => v,
        Err(e) => {
            return Err(e);
        },
    };
    let ghost docs = json::items_view(a@);
    let mut out: Vec<Entity> = Vec::new();
    let mut i: usize = 0;
    assert(docs.take(0) =~= Seq::empty());
    assert(entity_views(out@) =~= Seq::empty());
    while i < a.len()
        invariant
            i <= a@.len(),
            docs == json::items_view(a@),
            records::documents_of(s@) == Ok::<Seq<JsonV>, Seq<char>>(docs),
            entities_of(docs.take(i as int)) == Some(entity_views(out@)),
        decreases a@.len() - i,
    {
        proof {
            assert(docs.take(i + 1).drop_last() =~= docs.take(i as int));
            assert(docs.take(i + 1).last() == a@[i as int]@);
        }
        match decode_entity(&a[i]) {
            Some(e) => {
                let ghost o = out@;
                out.push(e);
                assert(entity_views(out@) =~= entity_views(o).push(e@));
            },
            None => {
                proof {
                    lemma_entities_fail(docs, i + 1);
                }
                return Err("a record is not an entity".to_owned());
            },
        }
        i += 1;
    }
    assert(docs.take(docs.len() as int) =~= docs);
    Ok(out)
}

/// The mutations for several entities.
pub open spec fn all_ops(es: Seq<EntityV>, ts: Ts, origin: Option<Seq<char>>) -> Seq<OpV>
    decreases es.len(),
{
    if es.len() == 0 {
        Seq::empty()
    } else {
        all_ops(es.drop_last(), ts, origin) + ops_of(es.last(), ts, origin)
    }
}

/// The names of several entities.
pub open spec fn all_names(es: Seq<EntityV>) -> Set<Seq<char>> {
    es.map_values(|e: EntityV| e.name).to_set()
}

/// Translates entities into batches, one for each.
pub fn entity_batches(es: &Vec<Entity>, ts: Ts, origin: Option<&str>) -> (res: Vec<Batch>)
    ensures
        snapshot::batch_ops(res@) == all_ops(entity_views(es@), ts, graph::str_view(origin)),
        snapshot::batch_names(res@) == all_names(entity_views(es@)),
{
    let ghost all = entity_views(es@);
    let ghost f = |e: EntityV| e.name;
    let mut out: Vec<Batch> = Vec::new();
    let mut i: usize = 0;
    proof {
        assert(all.take(0) =~= Seq::empty());
        assert(snapshot::batch_ops(out@) =~= Seq::empty());
        assert(all_names(all.take(0)) =~= Set::empty());
    }
    while i < es.len()
        invariant
            i <= es@.len(),
            all == entity_views(es@),
            snapshot::batch_ops(out@) == all_ops(all.take(i as int), ts, graph::str_view(origin)),
            snapshot::batch_names(out@) == all_names(all.take(i as int)),
        decreases es@.len() - i,
    {
        let b = entity_ops(&es[i], ts, origin);
        let ghost o = out@;
        let ghost name = all[i as int].name;
        out.push(b);
        proof {
            assert(out@.drop_last() =~= o);
            assert(out@.last() == b);
            let before = all.take(i as int);
            let after = all.take(i + 1);
            assert(after.drop_last() =~= before);
            assert(after.last() == es@[i as int]@);
            assert(query::string_set(b.1@) =~= set![name]) by {
                assert(text::views(b.1@) =~= seq![name]);
                assert(text::views(b.1@)[0] == name);
            }
            let xs = before.map_values(|e: EntityV| e.name);
            let ys = after.map_values(|e: EntityV| e.name);
            assert(ys =~= xs.push(name));
            assert(ys.to_set() =~= xs.to_set().insert(name)) by {
                assert forall|x: Seq<char>| ys.contains(x) == (xs.contains(x) || x == name) by {
                    if xs.contains(x) {
                        let k = xs.index_of(x);
                        assert(ys[k] == x);
                    }
                    assert(ys[xs.len() as int] == name);
                }
            }
            assert(snapshot::batch_names(out@) =~= all_names(after));
        }
        i += 1;
    }
    assert(all.take(all.len() as int) =~= all);
    out
}

/// Ingests parsed entities observed at `ts`. With `reconcile` they are a
/// complete snapshot of their domain. Returns the names of retired nodes.
pub fn ingest_parsed<S: OpSink>(
    sink: &mut S,
    entities: &Vec<Entity>,
    ts: Ts,
    reconcile: bool,
    origin: Option<&str>,
) -> (res: Result<Vec<String>, String>)
    requires
        old(sink).sink_wf(),
    ensures
        final(sink).sink_wf(),
        snapshot::ingestion(
            *old(sink),
            *final(sink),
            all_ops(entity_views(entities@), ts, graph::str_view(origin)),
            all_names(entity_views(entities@)),
            ts,
            reconcile,
            res,
        ),
        S::steady() ==> snapshot::exact_ingestion(
            *old(sink),
            *final(sink),
            all_ops(entity_views(entities@), ts, graph::str_view(origin)),
            all_names(entity_views(entities@)),
            ts,
            reconcile,
            res,
        ),
{
    let batches = entity_batches(entities, ts, origin);
    ingest_snapshot_ops(sink, batches, ts, reconcile)
}

/// Ingests entities given as JSON. Where the text is not a list of entities,
/// nothing is ingested.
pub fn ingest_entities<S: OpSink>(
    sink: &mut S,
    s: &str,
    ts: Ts,
    reconcile: bool,
    origin: Option<&str>,
) -> (res: Result<Vec<String>, String>)
    requires
        old(sink).sink_wf(),
    ensures
        final(sink).sink_wf(),
        match parsed(s@) {
            Ok(es) => {
                let ops = all_ops(es, ts, graph::str_view(origin));
                let names = all_names(es);
                &&& snapshot::ingestion(
                    *old(sink),
                    *final(sink),
                    ops,
                    names,
                    ts,
                    reconcile,
                    res,
                )
                &&& S::steady() ==> snapshot::exact_ingestion(
                    *old(sink),
                    *final(sink),
                    ops,
                    names,
                    ts,
                    reconcile,
                    res,
                )
            },
            Err(m) => {
                &&& final(sink).model() == old(sink).model()
                &&& final(sink).journal() == old(sink).journal()
                &&& res matches Err(e) && e@ == m
            },
        },
{
    match parse_entities(s) {
        Ok(es) => ingest_parsed(sink, &es, ts, reconcile, origin),
        Err(e) => Err(e),
    }
}

/// `ingest_entities` for a graph in memory, without a label.
pub fn ingest_entities_mem(
    g: &mut TemporalGraph,
    s: &str,
    ts: Ts,
    reconcile: bool,
) -> (res: Result<Vec<String>, String>)
    requires
        old(g).wf(),
    ensures
        final(g).wf(),
        match parsed(s@) {
            Ok(es) => {
                let (h, outcome) = snapshot::ingested(
                    old(g)@,
                    all_ops(es, ts, None),
                    all_names(es),
                    ts,
                    reconcile,
                );
                &&& final(g)@ == h
                &&& match res {
                    Ok(stale) => outcome == Some(text::views(stale@)),
                    Err(e) => outcome is None && e@ == "graph is full: no ids are left"@,
                }
            },
            Err(m) => {
                &&& final(g)@ == old(g)@
                &&& res matches Err(e) && e@ == m
            },
        },
{
    ingest_entities(g, s, ts, reconcile, None)
}

} // verus!
