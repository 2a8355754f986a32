//! What every mutation keeps: the graph stays sound, history is only added to,
//! and the past stays as it was.

use crate::interner;
use crate::json;
use crate::model;
use crate::model::{Edge, EdgeId, GraphV, NodeId, NodeV, OpV, Ts, VersionV, T_MAX};
use crate::names;
use crate::query;
use crate::snapshot;
use crate::text;
use vstd::prelude::*;

verus! {

/// What may become of a version: an open one may end.
pub open spec fn version_grew(a: VersionV, b: VersionV) -> bool {
    &&& b == VersionV { retired_at: b.retired_at, ..a }
    &&& a.retired_at != T_MAX ==> b.retired_at == a.retired_at
}

/// What may become of a record of an edge: an open one may end.
pub open spec fn edge_grew(a: Edge, b: Edge) -> bool {
    &&& b == Edge { valid_to: b.valid_to, ..a }
    &&& a.valid_to != T_MAX ==> b.valid_to == a.valid_to
}

/// What may become of a node: it keeps its name, a placeholder may turn into an
/// observed node, and versions are added behind those that it has.
pub open spec fn node_grew(a: NodeV, b: NodeV) -> bool {
    &&& b.name == a.name
    &&& b.placeholder ==> a.placeholder
    &&& b.placeholder == a.placeholder ==> b.type_id == a.type_id
    &&& a.versions.len() <= b.versions.len()
    &&& forall|j: int|
        0 <= j < a.versions.len() ==> version_grew(#[trigger] a.versions[j], b.versions[j])
}

/// What may become of a graph: every number keeps its meaning, nothing that was
/// recorded is lost, and the estimate of its size does not shrink.
pub open spec fn grew(a: GraphV, b: GraphV) -> bool {
    &&& a.types.is_prefix_of(b.types)
    &&& a.kinds.is_prefix_of(b.kinds)
    &&& a.origins.is_prefix_of(b.origins)
    &&& a.nodes.len() <= b.nodes.len()
    &&& forall|i: int| 0 <= i < a.nodes.len() ==> node_grew(#[trigger] a.nodes[i], b.nodes[i])
    &&& forall|k: Seq<char>| #[trigger]
        a.ids.contains_key(k) ==> b.ids.contains_key(k) && b.ids[k] == a.ids[k]
    &&& a.edges.len() <= b.edges.len()
    &&& forall|i: int| 0 <= i < a.edges.len() ==> edge_grew(#[trigger] a.edges[i], b.edges[i])
    &&& a.bytes <= usize::MAX ==> a.bytes <= b.bytes <= usize::MAX
}

pub(crate) proof fn lemma_grew_trans(a: GraphV, b: GraphV, c: GraphV)
    requires
        grew(a, b),
        grew(b, c),
    ensures
        grew(a, c),
{
    assert forall|i: int| 0 <= i < a.nodes.len() implies node_grew(
        #[trigger] a.nodes[i],
        c.nodes[i],
    ) by {
        assert(node_grew(a.nodes[i], b.nodes[i]));
        assert(node_grew(b.nodes[i], c.nodes[i]));
        assert forall|j: int| 0 <= j < a.nodes[i].versions.len() implies version_grew(
            #[trigger] a.nodes[i].versions[j],
            c.nodes[i].versions[j],
        ) by {
            assert(version_grew(a.nodes[i].versions[j], b.nodes[i].versions[j]));
            assert(version_grew(b.nodes[i].versions[j], c.nodes[i].versions[j]));
        }
    }
    assert forall|i: int| 0 <= i < a.edges.len() implies edge_grew(
        #[trigger] a.edges[i],
        c.edges[i],
    ) by {
        assert(edge_grew(a.edges[i], b.edges[i]));
        assert(edge_grew(b.edges[i], c.edges[i]));
    }
}

proof fn lemma_grew_self(g: GraphV)
    ensures
        grew(g, g),
{
}

pub(crate) proof fn lemma_interned(table: Seq<Seq<char>>, s: Seq<char>)
    requires
        table.no_duplicates(),
        table.len() < u32::MAX,
    ensures
        interner::interned(table, s).no_duplicates(),
        interner::interned(table, s).contains(s),
        table.is_prefix_of(interner::interned(table, s)),
        interner::number_of(interner::interned(table, s), s) < interner::interned(table, s).len(),
        interner::interned(table, s)[interner::number_of(interner::interned(table, s), s) as int]
            == s,
{
    let t = interner::interned(table, s);
    if !table.contains(s) {
        assert(t[table.len() as int] == s);
    }
    assert(t.contains(s));
}

proof fn lemma_labels(g: GraphV, ty: Seq<char>, origin: Option<Seq<char>>)
    requires
        g.wf(),
        g.types.len() < u32::MAX,
        g.origins.len() + 2 <= u32::MAX,
    ensures
        ({
            let l = g.with_labels(ty, origin);
            &&& l.wf()
            &&& grew(g, l)
            &&& interner::number_of(l.types, ty) < l.types.len()
            &&& l.types[interner::number_of(l.types, ty) as int] == ty
            &&& model::origin_number(l.origins, origin) < l.origins.len()
        }),
{
    lemma_interned(g.types, ty);
    lemma_interned(g.origins, Seq::empty());
    let base = interner::interned(g.origins, Seq::empty());
    match origin {
        Some(o) => {
            lemma_interned(base, o);
        },
        None => {},
    }
}

/// The entries of tokens only add to an estimate.
proof fn lemma_cost_grows(bytes: nat, toks: Seq<Seq<char>>)
    requires
        bytes <= usize::MAX,
    ensures
        bytes <= names::tokens_cost(bytes, toks) <= usize::MAX,
    decreases toks.len(),
{
    if toks.len() > 0 {
        lemma_cost_grows(bytes, toks.drop_last());
    }
}

proof fn lemma_with_node(g: GraphV, name: Seq<char>, type_id: u32, placeholder: bool)
    requires
        g.wf(),
        g.nodes.len() < u32::MAX,
        type_id < g.types.len(),
    ensures
        ({
            let h = g.with_node(name, type_id, placeholder);
            &&& h.wf()
            &&& grew(g, h)
            &&& h.ids.contains_key(name)
        }),
{
    let base = names::saturating(
        names::saturating(g.bytes, model::NODE_OVERHEAD as nat),
        text::utf8_len(name) * 2,
    );
    lemma_cost_grows(base, names::tokens(name));
}

proof fn lemma_with_version(g: GraphV, id: NodeId, v: VersionV)
    requires
        g.wf(),
        id < g.nodes.len(),
        v.origin_id < g.origins.len(),
    ensures
        g.with_version(id, v).wf(),
        grew(g, g.with_version(id, v)),
{
    let h = g.with_version(id, v);
    let a = g.nodes[id as int].versions;
    let b = h.nodes[id as int].versions;
    assert forall|j: int| 0 <= j < b.len() implies (#[trigger] b[j]).origin_id < h.origins.len() by {
        if j < a.len() {
            assert(g.nodes[id as int].versions[j].origin_id < g.origins.len());
        }
    }
    assert forall|j: int| 0 <= j < a.len() implies version_grew(#[trigger] a[j], b[j]) by {}
    assert forall|i: int, j: int|
        0 <= i < h.nodes.len() && 0 <= j < h.nodes[i].versions.len() implies (
    #[trigger] h.nodes[i].versions[j]).origin_id < h.origins.len() by {
        if i != id {
            assert(h.nodes[i] == g.nodes[i]);
        }
    }
}

proof fn lemma_observe_node(
    g: GraphV,
    name: Seq<char>,
    ty: Seq<char>,
    props: Seq<char>,
    ts: Ts,
    origin: Option<Seq<char>>,
)
    requires
        g.wf(),
        g.room(1),
    ensures
        g.observe_node(name, ty, props, ts, origin).wf(),
        grew(g, g.observe_node(name, ty, props, ts, origin)),
{
    let l = g.with_labels(ty, origin);
    lemma_labels(g, ty, origin);
    let h = l.with_node(name, interner::number_of(l.types, ty), false);
    lemma_with_node(l, name, interner::number_of(l.types, ty), false);
    lemma_grew_trans(g, l, h);
    let v = VersionV {
        observed_at: ts,
        retired_at: T_MAX,
        origin_id: model::origin_number(l.origins, origin),
        props_hash: model::text_hash(props),
        props,
    };
    lemma_with_version(h, h.ids[name], v);
    lemma_grew_trans(g, h, h.with_version(h.ids[name], v));
}

proof fn lemma_observe_placeholder(
    g: GraphV,
    name: Seq<char>,
    ty: Seq<char>,
    ts: Ts,
    origin: Option<Seq<char>>,
)
    requires
        g.wf(),
        g.types.len() < u32::MAX,
        g.origins.len() + 2 <= u32::MAX,
        g.nodes.len() < u32::MAX,
    ensures
        g.observe_placeholder(name, ty, ts, origin).wf(),
        grew(g, g.observe_placeholder(name, ty, ts, origin)),
{
    let l = g.with_labels(ty, origin);
    lemma_labels(g, ty, origin);
    let h = l.with_node(name, interner::number_of(l.types, ty), true);
    lemma_with_node(l, name, interner::number_of(l.types, ty), true);
    lemma_grew_trans(g, l, h);
    let v = VersionV {
        observed_at: ts,
        retired_at: T_MAX,
        origin_id: model::origin_number(l.origins, origin),
        props_hash: 0,
        props: seq!['n', 'u', 'l', 'l'],
    };
    lemma_with_version(h, h.ids[name], v);
    lemma_grew_trans(g, h, h.with_version(h.ids[name], v));
}

proof fn lemma_close_edge(g: GraphV, eid: EdgeId, ts: Ts)
    requires
        g.wf(),
        eid < g.edges.len(),
        g.edges[eid as int].valid_to == T_MAX,
    ensures
        g.close_edge(eid, ts).wf(),
        grew(g, g.close_edge(eid, ts)),
{
}

proof fn lemma_close_edges(g: GraphV, eids: Seq<EdgeId>, ts: Ts)
    requires
        g.wf(),
        forall|k: int| 0 <= k < eids.len() ==> (#[trigger] eids[k]) < g.edges.len(),
    ensures
        g.close_edges(eids, ts).wf(),
        grew(g, g.close_edges(eids, ts)),
    decreases eids.len(),
{
    if eids.len() > 0 {
        let front = eids.drop_last();
        assert forall|k: int| 0 <= k < front.len() implies (#[trigger] front[k]) < g.edges.len() by {
            assert(eids[k] < g.edges.len());
        }
        lemma_close_edges(g, front, ts);
        let h = g.close_edges(front, ts);
        assert(eids[eids.len() - 1] < g.edges.len());
        if h.edges[eids.last() as int].valid_to == T_MAX {
            lemma_close_edge(h, eids.last(), ts);
            lemma_grew_trans(g, h, h.close_edge(eids.last(), ts));
        }
    }
}

/// The first half of a retirement: the node's open version ends.
proof fn lemma_retire_node_half(g: GraphV, name: Seq<char>, ts: Ts)
    requires
        g.wf(),
        g.ids.contains_key(name),
    ensures
        ({
            let id = g.ids[name] as int;
            let n = g.nodes[id];
            let h = GraphV {
                nodes: g.nodes.update(
                    id,
                    NodeV { versions: model::closed_at(n.versions, ts), ..n },
                ),
                ..g
            };
            h.wf() && grew(g, h)
        }),
{
    let id = g.ids[name];
    let n = g.nodes[id as int];
    let h = GraphV {
        nodes: g.nodes.update(id as int, NodeV { versions: model::closed_at(n.versions, ts), ..n }),
        ..g
    };
    let b = h.nodes[id as int].versions;
    assert forall|j: int| 0 <= j < b.len() implies (#[trigger] b[j]).origin_id < h.origins.len() by {
        assert(g.nodes[id as int].versions[j].origin_id < g.origins.len());
    }
    assert forall|i: int, j: int|
        0 <= i < h.nodes.len() && 0 <= j < h.nodes[i].versions.len() implies (
    #[trigger] h.nodes[i].versions[j]).origin_id < h.origins.len() by {
        if i != id {
            assert(h.nodes[i] == g.nodes[i]);
        }
    }
    assert(h.wf());
    assert(grew(g, h));
}

proof fn lemma_retire_node(g: GraphV, name: Seq<char>, ts: Ts)
    requires
        g.wf(),
    ensures
        g.retire_node(name, ts).wf(),
        grew(g, g.retire_node(name, ts)),
{
    if g.ids.contains_key(name) {
        let id = g.ids[name];
        let n = g.nodes[id as int];
        let h = GraphV {
            nodes: g.nodes.update(
                id as int,
                NodeV { versions: model::closed_at(n.versions, ts), ..n },
            ),
            ..g
        };
        lemma_retire_node_half(g, name, ts);
        g.lemma_touching_in_range(id);
        let eids = g.out_ids(id) + g.in_ids(id);
        lemma_close_edges(h, eids, ts);
        lemma_grew_trans(g, h, h.close_edges(eids, ts));
    }
}

proof fn lemma_observe_edge(
    g: GraphV,
    src: NodeId,
    dst: NodeId,
    kind: Seq<char>,
    ts: Ts,
    origin: Option<Seq<char>>,
)
    requires
        g.wf(),
        src < g.nodes.len(),
        dst < g.nodes.len(),
        g.edges.len() < u32::MAX,
        g.kinds.len() < u32::MAX,
        g.origins.len() + 2 <= u32::MAX,
    ensures
        g.observe_edge(src, dst, kind, ts, origin).wf(),
        grew(g, g.observe_edge(src, dst, kind, ts, origin)),
{
    lemma_interned(g.kinds, kind);
    lemma_interned(g.origins, Seq::empty());
    let base = interner::interned(g.origins, Seq::empty());
    match origin {
        Some(o) => {
            lemma_interned(base, o);
        },
        None => {},
    }
    let h = GraphV {
        origins: model::origins_with(g.origins, origin),
        kinds: interner::interned(g.kinds, kind),
        ..g
    };
    assert(h.wf());
    assert(grew(g, h));
    lemma_grew_trans(g, h, g.observe_edge(src, dst, kind, ts, origin));
}

/// Both ends of an edge are made present.
pub(crate) proof fn lemma_endpoints(g: GraphV, src: Seq<char>, dst: Seq<char>, ts: Ts)
    requires
        g.wf(),
        g.room(1),
    ensures
        ({
            let a = g.with_endpoint(src, ts);
            let b = a.with_endpoint(dst, ts);
            &&& a.wf()
            &&& a.types.len() < u32::MAX
            &&& a.origins.len() + 2 <= u32::MAX
            &&& a.nodes.len() < u32::MAX
            &&& grew(g, a)
            &&& b.wf()
            &&& grew(g, b)
            &&& b.ids.contains_key(src)
            &&& b.ids.contains_key(dst)
            &&& b.edges == g.edges
            &&& b.open == g.open
            &&& b.kinds == g.kinds
            &&& b.origins.len() + 2 <= u32::MAX
        }),
{
    let a = g.with_endpoint(src, ts);
    let b = a.with_endpoint(dst, ts);
    if !g.ids.contains_key(src) {
        lemma_observe_placeholder(g, src, model::unknown_type(), ts, None);
        assert(a.origins[0] == Seq::<char>::empty());
        assert(a.origins.contains(Seq::empty()));
    } else {
        lemma_grew_self(g);
    }
    if !a.ids.contains_key(dst) {
        lemma_observe_placeholder(a, dst, model::unknown_type(), ts, None);
    } else {
        lemma_grew_self(a);
    }
    lemma_grew_trans(g, a, b);
}

/// A mutation leaves a sound graph sound, and history is append-only: ids keep
/// their meaning, and the one thing that may become of what was recorded is
/// that it ends.
pub proof fn history_is_append_only(g: GraphV, op: OpV)
    requires
        g.wf(),
        g.accepts(op),
    ensures
        g.apply(op).wf(),
        grew(g, g.apply(op)),
{
    match op {
        OpV::ObserveNode { name, asset_type, props, ts, origin } => {
            lemma_observe_node(g, name, asset_type, json::canonical_text(props), ts, origin);
        },
        OpV::ObservePlaceholder { name, inferred_type, ts, origin } => {
            lemma_observe_placeholder(g, name, inferred_type, ts, origin);
        },
        OpV::RetireNode { name, ts } => {
            lemma_retire_node(g, name, ts);
        },
        OpV::ObserveEdge { src, dst, kind, ts, origin } => {
            let b = g.with_endpoint(src, ts).with_endpoint(dst, ts);
            lemma_endpoints(g, src, dst, ts);
            lemma_observe_edge(b, b.ids[src], b.ids[dst], kind, ts, origin);
            lemma_grew_trans(g, b, g.apply(op));
        },
        OpV::RetireEdge { src, dst, kind, ts } => {
            lemma_grew_self(g);
            if g.ids.contains_key(src) && g.ids.contains_key(dst) {
                let key = (g.ids[src], g.ids[dst], interner::number_of(g.kinds, kind));
                if g.kinds.contains(kind) && g.open.contains_key(key) {
                    assert(g.open[key] < g.edges.len());
                }
            }
        },
    }
}

/// Running mutations only adds to history too, whether or not all are accepted.
pub proof fn running_only_adds(g: GraphV, ops: Seq<OpV>)
    requires
        g.wf(),
    ensures
        snapshot::run(g, ops).0.wf(),
        grew(g, snapshot::run(g, ops).0),
    decreases ops.len(),
{
    if ops.len() == 0 {
        lemma_grew_self(g);
    } else {
        running_only_adds(g, ops.drop_last());
        let (h, ok) = snapshot::run(g, ops.drop_last());
        if ok && h.accepts(ops.last()) {
            history_is_append_only(h, ops.last());
            lemma_grew_trans(g, h, h.apply(ops.last()));
        }
    }
}

/// Names and ids stand for each other one to one, and go on to, whatever is
/// recorded.
pub proof fn names_and_ids_correspond(g: GraphV, op: OpV, name: Seq<char>, id: NodeId)
    requires
        g.wf(),
        g.accepts(op),
    ensures
        g.id_of(name) == Some(id) <==> id < g.nodes.len() && g.nodes[id as int].name == name,
        g.id_of(name) == Some(id) ==> g.apply(op).id_of(name) == Some(id) && g.apply(
            op,
        ).nodes[id as int].name == name,
{
    history_is_append_only(g, op);
    if g.id_of(name) == Some(id) {
        assert(node_grew(g.nodes[id as int], g.apply(op).nodes[id as int]));
    }
}

// ---------------------------------------------------------------------------
// The past
// ---------------------------------------------------------------------------

/// The time that a mutation carries.
pub open spec fn time_of(op: OpV) -> Ts {
    match op {
        OpV::ObserveNode { ts, .. } => ts,
        OpV::ObservePlaceholder { ts, .. } => ts,
        OpV::RetireNode { ts, .. } => ts,
        OpV::ObserveEdge { ts, .. } => ts,
        OpV::RetireEdge { ts, .. } => ts,
    }
}

/// Two histories show the same at `t`: nothing, or a version with the same
/// properties and provenance that began at the same time.
pub open spec fn same_at(a: Seq<VersionV>, b: Seq<VersionV>, t: Ts) -> bool {
    match (model::version_at(a, t), model::version_at(b, t)) {
        (Some(x), Some(y)) => y == VersionV { retired_at: y.retired_at, ..x },
        (None, None) => true,
        _ => false,
    }
}

/// Two graphs show the same at `t`.
pub open spec fn same_past(a: GraphV, b: GraphV, t: Ts) -> bool {
    &&& a.nodes.len() <= b.nodes.len()
    &&& forall|i: int|
        0 <= i < a.nodes.len() ==> b.nodes[i].name == (#[trigger] a.nodes[i]).name && same_at(
            a.nodes[i].versions,
            b.nodes[i].versions,
            t,
        )
    &&& forall|i: int|
        a.nodes.len() <= i < b.nodes.len() ==> !(#[trigger] b.nodes[i]).alive_at(t)
    &&& a.edges.len() <= b.edges.len()
    &&& forall|i: int|
        0 <= i < a.edges.len() ==> (#[trigger] a.edges[i]).holds_at(t) == b.edges[i].holds_at(t)
            && a.edges[i].key() == b.edges[i].key()
    &&& forall|i: int|
        a.edges.len() <= i < b.edges.len() ==> !(#[trigger] b.edges[i]).holds_at(t)
}

proof fn lemma_past_trans(a: GraphV, b: GraphV, c: GraphV, t: Ts)
    requires
        same_past(a, b, t),
        same_past(b, c, t),
    ensures
        same_past(a, c, t),
{
    assert forall|i: int| 0 <= i < a.nodes.len() implies c.nodes[i].name == (
    #[trigger] a.nodes[i]).name && same_at(a.nodes[i].versions, c.nodes[i].versions, t) by {
        assert(same_at(a.nodes[i].versions, b.nodes[i].versions, t));
        assert(b.nodes[i].name == a.nodes[i].name);
        assert(same_at(b.nodes[i].versions, c.nodes[i].versions, t));
    }
    assert forall|i: int| a.nodes.len() <= i < c.nodes.len() implies !(
    #[trigger] c.nodes[i]).alive_at(t) by {
        if i < b.nodes.len() {
            assert(!b.nodes[i].alive_at(t));
            assert(same_at(b.nodes[i].versions, c.nodes[i].versions, t));
        }
    }
    assert forall|i: int| 0 <= i < a.edges.len() implies (#[trigger] a.edges[i]).holds_at(t)
        == c.edges[i].holds_at(t) && a.edges[i].key() == c.edges[i].key() by {
        assert(b.edges[i].holds_at(t) == c.edges[i].holds_at(t));
    }
    assert forall|i: int| a.edges.len() <= i < c.edges.len() implies !(
    #[trigger] c.edges[i]).holds_at(t) by {
        if i < b.edges.len() {
            assert(!b.edges[i].holds_at(t));
        }
    }
}

proof fn lemma_closed_past(versions: Seq<VersionV>, ts: Ts, t: Ts)
    requires
        t < ts,
    ensures
        same_at(versions, model::closed_at(versions, ts), t),
{
    let b = model::closed_at(versions, ts);
    if model::open_version(versions) is Some {
        assert(b.drop_last() =~= versions.drop_last());
    }
}

proof fn lemma_pushed_past(versions: Seq<VersionV>, v: VersionV, t: Ts)
    requires
        t < v.observed_at,
    ensures
        model::version_at(versions.push(v), t) == model::version_at(versions, t),
{
    assert(versions.push(v).drop_last() =~= versions);
}

proof fn lemma_with_node_past(g: GraphV, name: Seq<char>, type_id: u32, placeholder: bool, t: Ts)
    requires
        g.wf(),
    ensures
        same_past(g, g.with_node(name, type_id, placeholder), t),
{
}

proof fn lemma_with_version_past(g: GraphV, id: NodeId, v: VersionV, t: Ts)
    requires
        g.wf(),
        id < g.nodes.len(),
        t < v.observed_at,
    ensures
        same_past(g, g.with_version(id, v), t),
{
    let a = g.nodes[id as int].versions;
    lemma_closed_past(a, v.observed_at, t);
    lemma_pushed_past(model::closed_at(a, v.observed_at), v, t);
}

proof fn lemma_observe_node_past(
    g: GraphV,
    name: Seq<char>,
    ty: Seq<char>,
    props: Seq<char>,
    ts: Ts,
    origin: Option<Seq<char>>,
    t: Ts,
)
    requires
        g.wf(),
        g.room(1),
        t < ts,
    ensures
        same_past(g, g.observe_node(name, ty, props, ts, origin), t),
{
    let l = g.with_labels(ty, origin);
    lemma_labels(g, ty, origin);
    assert(same_past(g, l, t));
    let n = interner::number_of(l.types, ty);
    let h = l.with_node(name, n, false);
    lemma_with_node(l, name, n, false);
    lemma_with_node_past(l, name, n, false, t);
    lemma_past_trans(g, l, h, t);
    let v = VersionV {
        observed_at: ts,
        retired_at: T_MAX,
        origin_id: model::origin_number(l.origins, origin),
        props_hash: model::text_hash(props),
        props,
    };
    lemma_with_version_past(h, h.ids[name], v, t);
    lemma_past_trans(g, h, h.with_version(h.ids[name], v), t);
}

proof fn lemma_observe_placeholder_past(
    g: GraphV,
    name: Seq<char>,
    ty: Seq<char>,
    ts: Ts,
    origin: Option<Seq<char>>,
    t: Ts,
)
    requires
        g.wf(),
        g.types.len() < u32::MAX,
        g.origins.len() + 2 <= u32::MAX,
        g.nodes.len() < u32::MAX,
        t < ts,
    ensures
        same_past(g, g.observe_placeholder(name, ty, ts, origin), t),
{
    let l = g.with_labels(ty, origin);
    lemma_labels(g, ty, origin);
    assert(same_past(g, l, t));
    let n = interner::number_of(l.types, ty);
    let h = l.with_node(name, n, true);
    lemma_with_node(l, name, n, true);
    lemma_with_node_past(l, name, n, true, t);
    lemma_past_trans(g, l, h, t);
    let v = VersionV {
        observed_at: ts,
        retired_at: T_MAX,
        origin_id: model::origin_number(l.origins, origin),
        props_hash: 0,
        props: seq!['n', 'u', 'l', 'l'],
    };
    lemma_with_version_past(h, h.ids[name], v, t);
    lemma_past_trans(g, h, h.with_version(h.ids[name], v), t);
}

proof fn lemma_close_edges_past(g: GraphV, eids: Seq<EdgeId>, ts: Ts, t: Ts)
    requires
        g.wf(),
        forall|k: int| 0 <= k < eids.len() ==> (#[trigger] eids[k]) < g.edges.len(),
        t < ts,
    ensures
        same_past(g, g.close_edges(eids, ts), t),
    decreases eids.len(),
{
    if eids.len() > 0 {
        let front = eids.drop_last();
        assert forall|k: int| 0 <= k < front.len() implies (#[trigger] front[k]) < g.edges.len() by {
            assert(eids[k] < g.edges.len());
        }
        lemma_close_edges_past(g, front, ts, t);
        lemma_close_edges(g, front, ts);
        let h = g.close_edges(front, ts);
        assert(eids[eids.len() - 1] < g.edges.len());
        if h.edges[eids.last() as int].valid_to == T_MAX {
            lemma_past_trans(g, h, h.close_edge(eids.last(), ts), t);
        }
    }
}

/// The past stays as it was: a mutation changes nothing of what the graph shows
/// at a time before its own.
pub proof fn past_is_unchanged(g: GraphV, op: OpV, t: Ts)
    requires
        g.wf(),
        g.accepts(op),
        t < time_of(op),
    ensures
        same_past(g, g.apply(op), t),
{
    match op {
        OpV::ObserveNode { name, asset_type, props, ts, origin } => {
            lemma_observe_node_past(g, name, asset_type, json::canonical_text(props), ts, origin, t);
        },
        OpV::ObservePlaceholder { name, inferred_type, ts, origin } => {
            lemma_observe_placeholder_past(g, name, inferred_type, ts, origin, t);
        },
        OpV::RetireNode { name, ts } => {
            if g.ids.contains_key(name) {
                let id = g.ids[name];
                let n = g.nodes[id as int];
                let h = GraphV {
                    nodes: g.nodes.update(
                        id as int,
                        NodeV { versions: model::closed_at(n.versions, ts), ..n },
                    ),
                    ..g
                };
                lemma_retire_node_half(g, name, ts);
                lemma_closed_past(n.versions, ts, t);
                assert(same_past(g, h, t));
                g.lemma_touching_in_range(id);
                let eids = g.out_ids(id) + g.in_ids(id);
                lemma_close_edges_past(h, eids, ts, t);
                lemma_past_trans(g, h, h.close_edges(eids, ts), t);
            }
        },
        OpV::ObserveEdge { src, dst, kind, ts, origin } => {
            let a = g.with_endpoint(src, ts);
            let b = a.with_endpoint(dst, ts);
            lemma_endpoints(g, src, dst, ts);
            if !g.ids.contains_key(src) {
                lemma_observe_placeholder_past(g, src, model::unknown_type(), ts, None, t);
            }
            assert(same_past(g, a, t));
            if !a.ids.contains_key(dst) {
                lemma_observe_placeholder_past(a, dst, model::unknown_type(), ts, None, t);
            }
            assert(same_past(a, b, t));
            lemma_past_trans(g, a, b, t);
            lemma_past_trans(g, b, g.apply(op), t);
        },
        OpV::RetireEdge { src, dst, kind, ts } => {},
    }
}

proof fn lemma_filter_names(
    a: Seq<NodeV>,
    b: Seq<NodeV>,
    p: spec_fn(NodeV) -> bool,
)
    requires
        a.len() <= b.len(),
        forall|i: int| 0 <= i < a.len() ==> p(#[trigger] a[i]) == p(b[i]) && a[i].name == b[i].name,
        forall|i: int| a.len() <= i < b.len() ==> !p(#[trigger] b[i]),
    ensures
        a.filter(p).map_values(query::name_of()) == b.filter(p).map_values(query::name_of()),
    decreases b.len(),
{
    reveal(Seq::filter);
    if b.len() > a.len() {
        assert(!p(b[b.len() - 1]));
        lemma_filter_names(a, b.drop_last(), p);
    } else if b.len() > 0 {
        let x = a.drop_last();
        let y = b.drop_last();
        assert forall|i: int| 0 <= i < x.len() implies p(#[trigger] x[i]) == p(y[i]) && x[i].name
            == y[i].name by {
            assert(p(a[i]) == p(b[i]));
        }
        lemma_filter_names(x, y, p);
        assert(p(a[a.len() - 1]) == p(b[a.len() - 1]));
        query::lemma_map_push(x.filter(p), a.last(), query::name_of());
        query::lemma_map_push(y.filter(p), b.last(), query::name_of());
    }
}

/// Which nodes are listed as alive at a time does not depend on what is
/// recorded later.
pub proof fn alive_list_is_unchanged(g: GraphV, op: OpV, t: Ts)
    requires
        g.wf(),
        g.accepts(op),
        t < time_of(op),
    ensures
        query::named(g.apply(op), query::alive(t)) == query::named(g, query::alive(t)),
{
    past_is_unchanged(g, op, t);
    let h = g.apply(op);
    let p = query::alive(t);
    assert forall|i: int| 0 <= i < g.nodes.len() implies p(#[trigger] g.nodes[i]) == p(h.nodes[i])
        && g.nodes[i].name == h.nodes[i].name by {
        assert(same_at(g.nodes[i].versions, h.nodes[i].versions, t));
    }
    assert forall|i: int| g.nodes.len() <= i < h.nodes.len() implies !p(#[trigger] h.nodes[i]) by {
        assert(!h.nodes[i].alive_at(t));
    }
    lemma_filter_names(g.nodes, h.nodes, p);
}

// ---------------------------------------------------------------------------
// Repeated observation
// ---------------------------------------------------------------------------

/// Two observations say the same thing, whenever they were made and in whatever
/// order the members of properties stand.
pub open spec fn same_fact(a: OpV, b: OpV) -> bool {
    match (a, b) {
        (
            OpV::ObserveNode { name: n1, asset_type: t1, props: p1, origin: o1, .. },
            OpV::ObserveNode { name: n2, asset_type: t2, props: p2, origin: o2, .. },
        ) => n1 == n2 && t1 == t2 && json::json_sorted(p1) == json::json_sorted(p2) && o1 == o2,
        (
            OpV::ObservePlaceholder { name: n1, inferred_type: t1, origin: o1, .. },
            OpV::ObservePlaceholder { name: n2, inferred_type: t2, origin: o2, .. },
        ) => n1 == n2 && t1 == t2 && o1 == o2,
        (
            OpV::ObserveEdge { src: s1, dst: d1, kind: k1, origin: o1, .. },
            OpV::ObserveEdge { src: s2, dst: d2, kind: k2, origin: o2, .. },
        ) => s1 == s2 && d1 == d2 && k1 == k2 && o1 == o2,
        _ => false,
    }
}

proof fn lemma_node_again(
    g: GraphV,
    name: Seq<char>,
    ty: Seq<char>,
    props: Seq<char>,
    ts: Ts,
    origin: Option<Seq<char>>,
    later: Ts,
)
    requires
        g.wf(),
        g.room(1),
    ensures
        ({
            let h = g.observe_node(name, ty, props, ts, origin);
            h.observe_node(name, ty, props, later, origin) == h
        }),
{
    let l = g.with_labels(ty, origin);
    lemma_labels(g, ty, origin);
    lemma_interned(g.types, ty);
    lemma_label_tables(g.origins, origin);
    let n = interner::number_of(l.types, ty);
    let m = l.with_node(name, n, false);
    lemma_with_node(l, name, n, false);
    let h = g.observe_node(name, ty, props, ts, origin);
    assert(h.with_labels(ty, origin) =~= h);
    let id = m.ids[name];
    assert(h.ids == m.ids);
    assert(!h.nodes[id as int].placeholder);
    assert(h.with_node(name, n, false) == h);
    assert(model::open_version(h.nodes[id as int].versions) is Some);
    assert(model::open_version(h.nodes[id as int].versions)->0.props_hash == model::text_hash(
        props,
    ));
}

proof fn lemma_placeholder_again(
    g: GraphV,
    name: Seq<char>,
    ty: Seq<char>,
    ts: Ts,
    origin: Option<Seq<char>>,
    later: Ts,
)
    requires
        g.wf(),
        g.room(1),
    ensures
        ({
            let h = g.observe_placeholder(name, ty, ts, origin);
            h.observe_placeholder(name, ty, later, origin) == h
        }),
{
    let l = g.with_labels(ty, origin);
    lemma_labels(g, ty, origin);
    lemma_interned(g.types, ty);
    lemma_label_tables(g.origins, origin);
    let n = interner::number_of(l.types, ty);
    let m = l.with_node(name, n, true);
    lemma_with_node(l, name, n, true);
    let h = g.observe_placeholder(name, ty, ts, origin);
    assert(h.with_labels(ty, origin) =~= h);
    let id = m.ids[name];
    assert(h.ids == m.ids);
    assert(h.with_node(name, n, true) == h);
    assert(model::open_version(h.nodes[id as int].versions) is Some);
}

proof fn lemma_edge_again(
    g: GraphV,
    src: NodeId,
    dst: NodeId,
    kind: Seq<char>,
    ts: Ts,
    origin: Option<Seq<char>>,
    later: Ts,
)
    requires
        g.wf(),
        g.kinds.len() < u32::MAX,
        g.origins.len() + 2 <= u32::MAX,
    ensures
        ({
            let h = g.observe_edge(src, dst, kind, ts, origin);
            h.observe_edge(src, dst, kind, later, origin) == h
        }),
{
    lemma_interned(g.kinds, kind);
    lemma_label_tables(g.origins, origin);
    let h = g.observe_edge(src, dst, kind, ts, origin);
    let key = (src, dst, interner::number_of(h.kinds, kind));
    assert(h.kinds.contains(kind));
    assert(h.open.contains_key(key));
    let h2 = GraphV {
        origins: model::origins_with(h.origins, origin),
        kinds: interner::interned(h.kinds, kind),
        ..h
    };
    assert(h2 =~= h);
}

/// Observation is idempotent: to observe the same thing again changes nothing.
pub proof fn observing_again_changes_nothing(g: GraphV, op: OpV, again: OpV)
    requires
        g.wf(),
        g.accepts(op),
        same_fact(op, again),
    ensures
        g.apply(op).apply(again) == g.apply(op),
{
    match op {
        OpV::ObserveNode { name, asset_type, props, ts, origin } => {
            lemma_node_again(
                g,
                name,
                asset_type,
                json::canonical_text(props),
                ts,
                origin,
                time_of(again),
            );
        },
        OpV::ObservePlaceholder { name, inferred_type, ts, origin } => {
            lemma_placeholder_again(g, name, inferred_type, ts, origin, time_of(again));
        },
        OpV::ObserveEdge { src, dst, kind, ts, origin } => {
            let b = g.with_endpoint(src, ts).with_endpoint(dst, ts);
            lemma_endpoints(g, src, dst, ts);
            lemma_edge_again(b, b.ids[src], b.ids[dst], kind, ts, origin, time_of(again));
            assert(g.apply(op).ids == b.ids);
        },
        _ => {},
    }
}

proof fn lemma_label_tables(table: Seq<Seq<char>>, origin: Option<Seq<char>>)
    requires
        table.no_duplicates(),
        table.len() + 2 <= u32::MAX,
    ensures
        model::origins_with(model::origins_with(table, origin), origin) == model::origins_with(
            table,
            origin,
        ),
{
    let base = interner::interned(table, Seq::empty());
    lemma_interned(table, Seq::empty());
    match origin {
        Some(o) => {
            if o.len() > 0 {
                lemma_interned(base, o);
                let t = interner::interned(base, o);
                let k = base.index_of(Seq::empty());
                assert(t[k] == Seq::<char>::empty());
                assert(t.contains(Seq::empty()));
            }
        },
        None => {},
    }
}

// ---------------------------------------------------------------------------
// Retirement
// ---------------------------------------------------------------------------

/// Every record that has not ended is the one that is listed as open, so that
/// a relation has one open record at most.
pub open spec fn one_open_record(g: GraphV) -> bool {
    forall|i: int|
        0 <= i < g.edges.len() && (#[trigger] g.edges[i]).valid_to == T_MAX
            ==> g.open.contains_key(g.edges[i].key()) && g.open[g.edges[i].key()] == i
}

proof fn lemma_closed_record(g: GraphV, eids: Seq<EdgeId>, ts: Ts)
    requires
        g.wf(),
        one_open_record(g),
        ts < T_MAX,
        forall|k: int| 0 <= k < eids.len() ==> (#[trigger] eids[k]) < g.edges.len(),
    ensures
        one_open_record(g.close_edges(eids, ts)),
        forall|k: int|
            0 <= k < eids.len() ==> g.close_edges(eids, ts).edges[(#[trigger] eids[k]) as int].valid_to
                != T_MAX,
    decreases eids.len(),
{
    if eids.len() > 0 {
        let front = eids.drop_last();
        assert forall|k: int| 0 <= k < front.len() implies (#[trigger] front[k]) < g.edges.len() by {
            assert(eids[k] < g.edges.len());
        }
        lemma_closed_record(g, front, ts);
        lemma_close_edges(g, front, ts);
        let h = g.close_edges(front, ts);
        let r = g.close_edges(eids, ts);
        assert(eids[eids.len() - 1] < g.edges.len());
        assert forall|k: int| 0 <= k < eids.len() implies r.edges[(
        #[trigger] eids[k]) as int].valid_to != T_MAX by {
            if k < front.len() {
                assert(h.edges[front[k] as int].valid_to != T_MAX);
            }
        }
    }
}

/// The record of a relation that has not ended.
pub open spec fn is_open_record(g: GraphV, i: int, src: NodeId, dst: NodeId, kind: Seq<char>) -> bool {
    &&& 0 <= i < g.edges.len()
    &&& g.edges[i].src == src
    &&& g.edges[i].dst == dst
    &&& g.kinds[g.edges[i].kind_id as int] == kind
    &&& g.edges[i].valid_to == T_MAX
}

/// Observing an edge gives the open record of its relation where there is one,
/// and then no record is added or changed. Where there is none, one record
/// that begins then is added behind the others, and it is given. Either way
/// the relation has that open record and no other.
pub proof fn observing_an_edge_finds_or_adds_its_record(
    g: GraphV,
    src: NodeId,
    dst: NodeId,
    kind: Seq<char>,
    ts: Ts,
    origin: Option<Seq<char>>,
)
    requires
        g.wf(),
        g.room(1),
        one_open_record(g),
        src < g.nodes.len(),
        dst < g.nodes.len(),
    ensures
        ({
            let h = g.observe_edge(src, dst, kind, ts, origin);
            let eid = h.edge_id(src, dst, kind) as int;
            &&& is_open_record(h, eid, src, dst, kind)
            &&& forall|i: int| is_open_record(h, i, src, dst, kind) ==> i == eid
            &&& if exists|i: int| is_open_record(g, i, src, dst, kind) {
                &&& is_open_record(g, eid, src, dst, kind)
                &&& h.edges == g.edges
            } else {
                &&& eid == g.edges.len()
                &&& h.edges == g.edges.push(h.edges[eid])
                &&& h.edges[eid].valid_from == ts
            }
        }),
{
    let h = g.observe_edge(src, dst, kind, ts, origin);
    lemma_interned(g.kinds, kind);
    lemma_observe_edge(g, src, dst, kind, ts, origin);
    let number = interner::number_of(h.kinds, kind);
    assert forall|i: int| is_open_record(g, i, src, dst, kind) implies g.open.contains_key(
        (src, dst, number),
    ) && g.open[(src, dst, number)] == i by {
        let e = g.edges[i];
        assert(e.kind_id < g.kinds.len());
        interner::lemma_number_of(h.kinds, e.kind_id as int);
        assert(h.kinds[e.kind_id as int] == kind);
        assert(e.key() == (src, dst, number));
    }
    if g.open.contains_key((src, dst, number)) {
        let i = g.open[(src, dst, number)] as int;
        assert(g.edges[i].kind_id < g.kinds.len());
        assert(g.edges[i].key() == (src, dst, number));
        assert(is_open_record(g, i, src, dst, kind));
    }
    assert forall|i: int| is_open_record(h, i, src, dst, kind) implies i == h.edge_id(
        src,
        dst,
        kind,
    ) as int by {
        if i < g.edges.len() {
            assert(g.edges[i].kind_id < g.kinds.len());
            assert(is_open_record(g, i, src, dst, kind));
        }
    }
}

/// A relation has one open record at most, whatever is recorded, as long as
/// nothing is retired at the end of time.
pub proof fn relation_has_one_open_record(g: GraphV, op: OpV)
    requires
        g.wf(),
        g.accepts(op),
        one_open_record(g),
        op is RetireNode || op is RetireEdge ==> time_of(op) < T_MAX,
    ensures
        one_open_record(g.apply(op)),
{
    match op {
        OpV::RetireNode { name, ts } => {
            if g.ids.contains_key(name) {
                let id = g.ids[name];
                let n = g.nodes[id as int];
                let h = GraphV {
                    nodes: g.nodes.update(
                        id as int,
                        NodeV { versions: model::closed_at(n.versions, ts), ..n },
                    ),
                    ..g
                };
                lemma_retire_node_half(g, name, ts);
                g.lemma_touching_in_range(id);
                lemma_closed_record(h, g.out_ids(id) + g.in_ids(id), ts);
            }
        },
        OpV::ObserveEdge { src, dst, kind, ts, origin } => {
            lemma_endpoints(g, src, dst, ts);
        },
        _ => {},
    }
}

/// A retired node has no open version and no open edge.
pub proof fn retired_node_is_closed(g: GraphV, name: Seq<char>, ts: Ts)
    requires
        g.wf(),
        one_open_record(g),
        g.ids.contains_key(name),
        ts < T_MAX,
    ensures
        ({
            let h = g.retire_node(name, ts);
            let id = g.ids[name];
            &&& model::open_version(h.nodes[id as int].versions) is None
            &&& forall|i: int|
                0 <= i < h.edges.len() && ((#[trigger] h.edges[i]).src == id || h.edges[i].dst
                    == id) ==> h.edges[i].valid_to != T_MAX
        }),
{
    let id = g.ids[name];
    let n = g.nodes[id as int];
    let h = GraphV {
        nodes: g.nodes.update(id as int, NodeV { versions: model::closed_at(n.versions, ts), ..n }),
        ..g
    };
    let eids = g.out_ids(id) + g.in_ids(id);
    lemma_retire_node_half(g, name, ts);
    g.lemma_touching_in_range(id);
    h.lemma_close_edges_frame(eids, ts);
    lemma_closed_record(h, eids, ts);
    lemma_close_edges(h, eids, ts);
    let r = h.close_edges(eids, ts);
    model::lemma_edge_ids(g.edges, model::leaves(id));
    model::lemma_edge_ids(g.edges, model::arrives(id));
    assert forall|i: int|
        0 <= i < r.edges.len() && ((#[trigger] r.edges[i]).src == id || r.edges[i].dst
            == id) implies r.edges[i].valid_to != T_MAX by {
        assert(edge_grew(h.edges[i], r.edges[i]));
        let e = g.edges[i];
        if e.src == id {
            assert(model::leaves(id)(e));
            let k = g.out_ids(id).index_of(i as u32);
            assert(eids[k] == i as u32);
        } else {
            assert(model::arrives(id)(e));
            let k = g.in_ids(id).index_of(i as u32);
            assert(eids[g.out_ids(id).len() + k] == i as u32);
        }
    }
}

/// A retired relation has no open record, and retiring it again, or one that
/// was never observed, changes nothing.
pub proof fn retired_edge_is_closed(g: GraphV, src: NodeId, dst: NodeId, kind: Seq<char>, ts: Ts)
    requires
        g.wf(),
        one_open_record(g),
        ts < T_MAX,
    ensures
        ({
            let h = g.retire_edge(src, dst, kind, ts);
            &&& forall|i: int|
                0 <= i < h.edges.len() && (#[trigger] h.edges[i]).src == src && h.edges[i].dst
                    == dst && h.kinds[h.edges[i].kind_id as int] == kind ==> h.edges[i].valid_to
                    != T_MAX
            &&& h.retire_edge(src, dst, kind, ts) == h
        }),
{
    let h = g.retire_edge(src, dst, kind, ts);
    let key = (src, dst, interner::number_of(g.kinds, kind));
    assert forall|i: int|
        0 <= i < h.edges.len() && (#[trigger] h.edges[i]).src == src && h.edges[i].dst == dst
            && h.kinds[h.edges[i].kind_id as int] == kind implies h.edges[i].valid_to != T_MAX by {
        let e = g.edges[i];
        assert(e.kind_id < g.kinds.len());
        assert(g.kinds[e.kind_id as int] == kind);
        interner::lemma_number_of(g.kinds, e.kind_id as int);
        assert(g.kinds.contains(kind));
        assert(e.key() == key);
    }
}

// ---------------------------------------------------------------------------
// Differences
// ---------------------------------------------------------------------------

proof fn lemma_filter_none<A>(s: Seq<A>, p: spec_fn(A) -> bool)
    requires
        forall|i: int| 0 <= i < s.len() ==> !p(#[trigger] s[i]),
    ensures
        s.filter(p).len() == 0,
    decreases s.len(),
{
    reveal(Seq::filter);
    if s.len() > 0 {
        assert(!p(s[s.len() - 1]));
        lemma_filter_none(s.drop_last(), p);
    }
}

/// Nothing changes between a time and itself.
pub proof fn diff_at_one_time_is_empty(g: GraphV, t: Ts)
    ensures
        query::diff_of(g, t, t).is_empty(),
{
    lemma_filter_none(g.nodes, query::appeared(t, t));
    lemma_filter_none(g.nodes, query::changed(t, t));
    lemma_filter_none(g.edges, query::began(t, t));
}

/// Looked at backwards, what came has gone and what went has come.
pub proof fn diff_reverses(g: GraphV, t1: Ts, t2: Ts)
    ensures
        ({
            let a = query::diff_of(g, t1, t2);
            let b = query::diff_of(g, t2, t1);
            &&& a.nodes_added == b.nodes_removed
            &&& a.nodes_removed == b.nodes_added
            &&& a.nodes_changed == b.nodes_changed
            &&& a.edges_added == b.edges_removed
            &&& a.edges_removed == b.edges_added
        }),
{
    assert(query::changed(t1, t2) =~= query::changed(t2, t1));
}

} // verus!
