//! Laws of the mutations, stated over the records that a graph holds: what each
//! one adds, what it ends, and what it leaves alone.

use crate::history;
use crate::interner;
use crate::json;
use crate::model;
use crate::model::{Edge, EdgeId, GraphV, NodeV, OpV, Ts, VersionV, T_MAX};
use crate::query;
use crate::snapshot;
use vstd::prelude::*;

verus! {

/// A mutation that observes, and ends nothing that stands for an edge.
pub open spec fn observes(op: OpV) -> bool {
    !(op is RetireNode) && !(op is RetireEdge)
}

/// Record `i` is open and says that `src` is joined to `dst`.
pub open spec fn joined(g: GraphV, i: int, src: Seq<char>, dst: Seq<char>, kind: Seq<char>) -> bool {
    &&& 0 <= i < g.edges.len()
    &&& g.edges[i].valid_to == T_MAX
    &&& g.nodes[g.edges[i].src as int].name == src
    &&& g.nodes[g.edges[i].dst as int].name == dst
    &&& g.kinds[g.edges[i].kind_id as int] == kind
}

/// Some open record says that `src` is joined to `dst`.
pub open spec fn are_joined(g: GraphV, src: Seq<char>, dst: Seq<char>, kind: Seq<char>) -> bool {
    exists|i: int| joined(g, i, src, dst, kind)
}

/// Record `i` is open, joins the two, began at `ts` and has the label.
pub open spec fn joined_since(
    g: GraphV,
    i: int,
    src: Seq<char>,
    dst: Seq<char>,
    kind: Seq<char>,
    ts: Ts,
    label: Seq<char>,
) -> bool {
    &&& joined(g, i, src, dst, kind)
    &&& g.edges[i].valid_from == ts
    &&& g.origins[g.edges[i].origin_id as int] == label
}

/// A label as text: none is the empty one.
pub open spec fn label_text(origin: Option<Seq<char>>) -> Seq<char> {
    match origin {
        Some(o) => o,
        None => Seq::empty(),
    }
}

/// Node `n` is called `name`.
pub open spec fn called(g: GraphV, n: int, name: Seq<char>) -> bool {
    0 <= n < g.nodes.len() && g.nodes[n].name == name
}

/// The node has a last version and it is open.
pub open spec fn stands(n: NodeV) -> bool {
    n.versions.len() > 0 && n.versions.last().retired_at == T_MAX
}

/// Version `v` is open, began at `ts` and has the properties and the label.
pub open spec fn version_since(
    g: GraphV,
    v: VersionV,
    ts: Ts,
    props: Seq<char>,
    hash: u64,
    label: Seq<char>,
) -> bool {
    &&& v.observed_at == ts
    &&& v.retired_at == T_MAX
    &&& v.props == props
    &&& v.props_hash == hash
    &&& g.origins[v.origin_id as int] == label
}

/// The label table leads from the number of a label back to the label.
proof fn lemma_label_text(table: Seq<Seq<char>>, origin: Option<Seq<char>>)
    requires
        table.no_duplicates(),
        table.len() + 2 <= u32::MAX,
        table.len() > 0 ==> table[0] == Seq::<char>::empty(),
    ensures
        ({
            let t = model::origins_with(table, origin);
            let n = model::origin_number(t, origin);
            &&& n < t.len()
            &&& table.is_prefix_of(t)
            &&& t[n as int] == label_text(origin)
        }),
{
    let base = interner::interned(table, Seq::empty());
    history::lemma_interned(table, Seq::empty());
    assert(base[0] == Seq::<char>::empty());
    match origin {
        Some(o) => {
            if o.len() > 0 {
                history::lemma_interned(base, o);
            } else {
                assert(o =~= Seq::<char>::empty());
            }
        },
        None => {},
    }
}

/// What an observation does to the edge records.
pub(crate) proof fn lemma_observation_edges(g: GraphV, op: OpV)
    requires
        g.wf(),
        g.accepts(op),
        observes(op),
    ensures
        g.edges.is_prefix_of(g.apply(op).edges),
        !(op is ObserveEdge) ==> g.apply(op).edges == g.edges,
{
    match op {
        OpV::ObserveEdge { src, dst, kind, ts, origin } => {
            history::lemma_endpoints(g, src, dst, ts);
        },
        _ => {},
    }
}

/// An open record stays the one that it is while records are only added.
proof fn lemma_joined_stays(
    g: GraphV,
    h: GraphV,
    i: int,
    src: Seq<char>,
    dst: Seq<char>,
    kind: Seq<char>,
)
    requires
        g.wf(),
        history::grew(g, h),
        g.edges.is_prefix_of(h.edges),
        0 <= i < g.edges.len(),
    ensures
        joined(h, i, src, dst, kind) == joined(g, i, src, dst, kind),
        h.edges[i] == g.edges[i],
        h.origins[h.edges[i].origin_id as int] == g.origins[g.edges[i].origin_id as int],
{
    let e = g.edges[i];
    assert(h.edges[i] == e);
    assert(e.kind_id < g.kinds.len());
    assert(h.kinds[e.kind_id as int] == g.kinds[e.kind_id as int]);
    assert(h.origins[e.origin_id as int] == g.origins[e.origin_id as int]);
    assert(history::node_grew(g.nodes[e.src as int], h.nodes[e.src as int]));
    assert(history::node_grew(g.nodes[e.dst as int], h.nodes[e.dst as int]));
}

/// Observing an edge joins its ends, from the first named to the second: where
/// they were not joined, a record is added that begins then and has the label
/// given; where they were, none is. No other record changes.
pub proof fn observing_an_edge_joins_its_ends(
    g: GraphV,
    src: Seq<char>,
    dst: Seq<char>,
    kind: Seq<char>,
    ts: Ts,
    origin: Option<Seq<char>>,
)
    requires
        g.wf(),
        g.accepts(OpV::ObserveEdge { src, dst, kind, ts, origin }),
    ensures
        ({
            let h = g.apply(OpV::ObserveEdge { src, dst, kind, ts, origin });
            let n = g.edges.len() as int;
            &&& are_joined(h, src, dst, kind)
            &&& g.edges.is_prefix_of(h.edges)
            &&& h.edges.len() <= n + 1
            &&& h.edges.len() == n + 1 ==> joined_since(
                h,
                n,
                src,
                dst,
                kind,
                ts,
                label_text(origin),
            )
            &&& !are_joined(g, src, dst, kind) ==> h.edges.len() == n + 1
            &&& history::one_open_record(g) && are_joined(g, src, dst, kind) ==> h.edges == g.edges
        }),
{
    let op = OpV::ObserveEdge { src, dst, kind, ts, origin };
    let h = g.apply(op);
    let b = g.with_endpoint(src, ts).with_endpoint(dst, ts);
    history::lemma_endpoints(g, src, dst, ts);
    history::history_is_append_only(g, op);
    lemma_label_text(b.origins, origin);
    history::lemma_interned(b.kinds, kind);
    lemma_observation_edges(g, op);
    let number = interner::number_of(h.kinds, kind);
    let key = (b.ids[src], b.ids[dst], number);
    assert(h.nodes == b.nodes);
    if b.open.contains_key(key) {
        let i = b.open[key] as int;
        assert(joined(h, i, src, dst, kind));
        lemma_joined_stays(g, h, i, src, dst, kind);
        assert(joined(g, i, src, dst, kind));
    } else {
        let n = g.edges.len() as int;
        assert(joined(h, n, src, dst, kind));
        if history::one_open_record(g) && are_joined(g, src, dst, kind) {
            let i = choose|i: int| joined(g, i, src, dst, kind);
            let e = g.edges[i];
            assert(g.open.contains_key(e.key()));
            lemma_joined_stays(g, h, i, src, dst, kind);
            assert(b.ids[b.nodes[e.src as int].name] == e.src);
            assert(b.ids[b.nodes[e.dst as int].name] == e.dst);
            assert(e.kind_id < g.kinds.len());
            interner::lemma_number_of(h.kinds, e.kind_id as int);
            assert(h.kinds[e.kind_id as int] == kind);
            assert(e.key() == key);
        }
    }
}

/// Observing a node makes it an observed one that stands with the properties
/// given. Where none stood, or other properties did, a version that begins then
/// is added, with the label given, and what stood ends then; where the same
/// properties stood, the history of the node stays as it was. Other nodes and
/// all edges stay as they were.
pub proof fn observing_a_node_records_its_properties(
    g: GraphV,
    name: Seq<char>,
    ty: Seq<char>,
    props: json::JsonV,
    ts: Ts,
    origin: Option<Seq<char>>,
) -> (n: int)
    requires
        g.wf(),
        g.accepts(OpV::ObserveNode { name, asset_type: ty, props, ts, origin }),
    ensures
        ({
            let h = g.apply(OpV::ObserveNode { name, asset_type: ty, props, ts, origin });
            let text = json::canonical_text(props);
            let hash = model::text_hash(text);
            let before = if n < g.nodes.len() {
                g.nodes[n].versions
            } else {
                Seq::empty()
            };
            &&& called(h, n, name)
            &&& n <= g.nodes.len()
            &&& n < g.nodes.len() ==> called(g, n, name)
            &&& n == g.nodes.len() ==> forall|i: int| !called(g, i, name)
            &&& h.nodes.len() == if n < g.nodes.len() {
                g.nodes.len()
            } else {
                g.nodes.len() + 1
            }
            &&& !h.nodes[n].placeholder
            &&& if n < g.nodes.len() && !g.nodes[n].placeholder {
                h.types[h.nodes[n].type_id as int] == g.types[g.nodes[n].type_id as int]
            } else {
                h.types[h.nodes[n].type_id as int] == ty
            }
            &&& if before.len() > 0 && before.last().retired_at == T_MAX && before.last().props_hash
                == hash {
                h.nodes[n].versions == before
            } else {
                &&& h.nodes[n].versions.len() == before.len() + 1
                &&& version_since(h, h.nodes[n].versions.last(), ts, text, hash, label_text(origin))
                &&& forall|k: int|
                    0 <= k < before.len() ==> #[trigger] h.nodes[n].versions[k] == if k
                        == before.len() - 1 && before[k].retired_at == T_MAX {
                        VersionV { retired_at: ts, ..before[k] }
                    } else {
                        before[k]
                    }
            }
            &&& forall|i: int|
                0 <= i < g.nodes.len() && i != n ==> #[trigger] h.nodes[i] == g.nodes[i]
            &&& h.edges == g.edges
        }),
{
    let l = g.with_labels(ty, origin);
    lemma_label_text(g.origins, origin);
    history::lemma_interned(g.types, ty);
    let op = OpV::ObserveNode { name, asset_type: ty, props, ts, origin };
    let h = g.apply(op);
    if g.ids.contains_key(name) {
        let n = g.ids[name] as int;
        assert(l.types[g.nodes[n].type_id as int] == g.types[g.nodes[n].type_id as int]);
        n
    } else {
        assert forall|i: int| !called(g, i, name) by {
            if called(g, i, name) {
                assert(g.ids.contains_key(g.nodes[i].name));
            }
        }
        g.nodes.len() as int
    }
}

/// Mentioning a node makes it stand from then on where it did not, with no
/// properties and the label given; a node that stands stays as it was, and an
/// observed one stays observed. Other nodes and all edges stay as they were.
pub proof fn mentioning_a_node_makes_it_stand(
    g: GraphV,
    name: Seq<char>,
    ty: Seq<char>,
    ts: Ts,
    origin: Option<Seq<char>>,
) -> (n: int)
    requires
        g.wf(),
        g.accepts(OpV::ObservePlaceholder { name, inferred_type: ty, ts, origin }),
    ensures
        ({
            let h = g.apply(OpV::ObservePlaceholder { name, inferred_type: ty, ts, origin });
            let before = if n < g.nodes.len() {
                g.nodes[n].versions
            } else {
                Seq::empty()
            };
            &&& called(h, n, name)
            &&& n <= g.nodes.len()
            &&& n < g.nodes.len() ==> called(g, n, name) && h.nodes[n].placeholder
                == g.nodes[n].placeholder && h.types[h.nodes[n].type_id as int]
                == g.types[g.nodes[n].type_id as int]
            &&& n == g.nodes.len() ==> (forall|i: int| !called(g, i, name)) && h.nodes[n].placeholder
                && h.types[h.nodes[n].type_id as int] == ty
            &&& h.nodes.len() == if n < g.nodes.len() {
                g.nodes.len()
            } else {
                g.nodes.len() + 1
            }
            &&& if before.len() > 0 && before.last().retired_at == T_MAX {
                h.nodes[n].versions == before
            } else {
                &&& h.nodes[n].versions.len() == before.len() + 1
                &&& version_since(
                    h,
                    h.nodes[n].versions.last(),
                    ts,
                    "null"@,
                    0,
                    label_text(origin),
                )
                &&& forall|k: int|
                    0 <= k < before.len() ==> #[trigger] h.nodes[n].versions[k] == before[k]
            }
            &&& forall|i: int|
                0 <= i < g.nodes.len() && i != n ==> #[trigger] h.nodes[i] == g.nodes[i]
            &&& h.edges == g.edges
        }),
{
    let l = g.with_labels(ty, origin);
    lemma_label_text(g.origins, origin);
    history::lemma_interned(g.types, ty);
    reveal_strlit("null");
    assert("null"@ =~= seq!['n', 'u', 'l', 'l']);
    let op = OpV::ObservePlaceholder { name, inferred_type: ty, ts, origin };
    let h = g.apply(op);
    if g.ids.contains_key(name) {
        let n = g.ids[name] as int;
        assert(l.types[g.nodes[n].type_id as int] == g.types[g.nodes[n].type_id as int]);
        n
    } else {
        assert forall|i: int| !called(g, i, name) by {
            if called(g, i, name) {
                assert(g.ids.contains_key(g.nodes[i].name));
            }
        }
        g.nodes.len() as int
    }
}

/// Closing records ends those of them that are open and no others.
proof fn lemma_close_edges_exactly(g: GraphV, eids: Seq<EdgeId>, ts: Ts)
    requires
        forall|k: int| 0 <= k < eids.len() ==> (#[trigger] eids[k]) < g.edges.len(),
        g.edges.len() <= u32::MAX,
    ensures
        ({
            let h = g.close_edges(eids, ts);
            &&& h.edges.len() == g.edges.len()
            &&& forall|i: int|
                0 <= i < g.edges.len() ==> #[trigger] h.edges[i] == if eids.contains(i as u32)
                    && g.edges[i].valid_to == T_MAX {
                    Edge { valid_to: ts, ..g.edges[i] }
                } else {
                    g.edges[i]
                }
        }),
    decreases eids.len(),
{
    if eids.len() > 0 {
        let front = eids.drop_last();
        assert forall|k: int| 0 <= k < front.len() implies (#[trigger] front[k]) < g.edges.len() by {
            assert(eids[k] < g.edges.len());
        }
        assert(eids[eids.len() - 1] < g.edges.len());
        lemma_close_edges_exactly(g, front, ts);
        let m = g.close_edges(front, ts);
        let h = g.close_edges(eids, ts);
        assert forall|i: int| 0 <= i < g.edges.len() implies #[trigger] h.edges[i] == if eids.contains(
            i as u32,
        ) && g.edges[i].valid_to == T_MAX {
            Edge { valid_to: ts, ..g.edges[i] }
        } else {
            g.edges[i]
        } by {
            assert(m.edges[i] == if front.contains(i as u32) && g.edges[i].valid_to == T_MAX {
                Edge { valid_to: ts, ..g.edges[i] }
            } else {
                g.edges[i]
            });
            if front.contains(i as u32) {
                let k = front.index_of(i as u32);
                assert(eids[k] == i as u32);
            }
            if eids.last() == i as u32 {
                assert(eids[eids.len() - 1] == i as u32);
            } else if eids.contains(i as u32) {
                let k = eids.index_of(i as u32);
                assert(front[k] == i as u32);
            }
        }
    }
}

/// Retiring a node ends, then, the version that stands and every open edge that
/// leaves it or arrives at it. Whatever had ended, every other node and every
/// other edge stays as it was, and a name that is not known changes nothing.
pub proof fn retiring_a_node_ends_it_and_its_edges(g: GraphV, name: Seq<char>, ts: Ts)
    requires
        g.wf(),
    ensures
        ({
            let h = g.apply(OpV::RetireNode { name, ts });
            &&& (forall|n: int| !called(g, n, name)) ==> h == g
            &&& h.nodes.len() == g.nodes.len()
            &&& h.edges.len() == g.edges.len()
            &&& forall|n: int|
                0 <= n < g.nodes.len() ==> #[trigger] h.nodes[n] == if g.nodes[n].name == name
                    && stands(g.nodes[n]) {
                    NodeV {
                        versions: g.nodes[n].versions.update(
                            g.nodes[n].versions.len() - 1,
                            VersionV { retired_at: ts, ..g.nodes[n].versions.last() },
                        ),
                        ..g.nodes[n]
                    }
                } else {
                    g.nodes[n]
                }
            &&& forall|i: int|
                0 <= i < g.edges.len() ==> #[trigger] h.edges[i] == if g.edges[i].valid_to == T_MAX
                    && (g.nodes[g.edges[i].src as int].name == name
                    || g.nodes[g.edges[i].dst as int].name == name) {
                    Edge { valid_to: ts, ..g.edges[i] }
                } else {
                    g.edges[i]
                }
            &&& h.kinds == g.kinds
            &&& h.types == g.types
            &&& h.origins == g.origins
        }),
{
    let h = g.apply(OpV::RetireNode { name, ts });
    if g.ids.contains_key(name) {
        let id = g.ids[name];
        assert(called(g, id as int, name));
        let node = g.nodes[id as int];
        let half = GraphV {
            nodes: g.nodes.update(
                id as int,
                NodeV { versions: model::closed_at(node.versions, ts), ..node },
            ),
            ..g
        };
        let eids = g.out_ids(id) + g.in_ids(id);
        g.lemma_touching_in_range(id);
        half.lemma_close_edges_frame(eids, ts);
        lemma_close_edges_exactly(half, eids, ts);
        model::lemma_edge_ids(g.edges, model::leaves(id));
        model::lemma_edge_ids(g.edges, model::arrives(id));
        let out = g.out_ids(id);
        assert forall|i: int| 0 <= i < g.edges.len() implies eids.contains(i as u32) == (
        g.nodes[(#[trigger] g.edges[i]).src as int].name == name
            || g.nodes[g.edges[i].dst as int].name == name) by {
            let e = g.edges[i];
            assert(g.ids[g.nodes[e.src as int].name] == e.src);
            assert(g.ids[g.nodes[e.dst as int].name] == e.dst);
            if e.src == id {
                assert(model::leaves(id)(e));
                let k = out.index_of(i as u32);
                assert(eids[k] == i as u32);
            }
            if e.dst == id {
                assert(model::arrives(id)(e));
                let k = g.in_ids(id).index_of(i as u32);
                assert(eids[out.len() + k] == i as u32);
            }
            if eids.contains(i as u32) {
                let k = eids.index_of(i as u32);
                if k < out.len() {
                    assert(out[k] == i as u32);
                    assert(model::leaves(id)(g.edges[out[k] as int]));
                } else {
                    assert(g.in_ids(id)[k - out.len()] == i as u32);
                    assert(model::arrives(id)(g.edges[g.in_ids(id)[k - out.len()] as int]));
                }
            }
        }
        assert forall|n: int| 0 <= n < g.nodes.len() implies #[trigger] h.nodes[n] == if g.nodes[n].name
            == name && stands(g.nodes[n]) {
            NodeV {
                versions: g.nodes[n].versions.update(
                    g.nodes[n].versions.len() - 1,
                    VersionV { retired_at: ts, ..g.nodes[n].versions.last() },
                ),
                ..g.nodes[n]
            }
        } else {
            g.nodes[n]
        } by {
            assert(g.ids[g.nodes[n].name] == n);
            if n == id {
                if stands(node) {
                    assert(model::closed_at(node.versions, ts) =~= node.versions.update(
                        node.versions.len() - 1,
                        VersionV { retired_at: ts, ..node.versions.last() },
                    ));
                }
            }
        }
    } else {
        assert forall|n: int| 0 <= n < g.nodes.len() implies (#[trigger] g.nodes[n]).name
            != name by {
            assert(g.ids.contains_key(g.nodes[n].name));
        }
        assert forall|i: int| 0 <= i < g.edges.len() implies g.nodes[(
        #[trigger] g.edges[i]).src as int].name != name && g.nodes[g.edges[i].dst as int].name
            != name by {}
    }
}

/// Retiring an edge ends, then, the record that joins the two, and nothing
/// else changes.
pub proof fn retiring_an_edge_ends_its_record(
    g: GraphV,
    src: Seq<char>,
    dst: Seq<char>,
    kind: Seq<char>,
    ts: Ts,
)
    requires
        g.wf(),
        history::one_open_record(g),
    ensures
        ({
            let h = g.apply(OpV::RetireEdge { src, dst, kind, ts });
            &&& h.edges.len() == g.edges.len()
            &&& forall|i: int|
                0 <= i < g.edges.len() ==> #[trigger] h.edges[i] == if joined(
                    g,
                    i,
                    src,
                    dst,
                    kind,
                ) {
                    Edge { valid_to: ts, ..g.edges[i] }
                } else {
                    g.edges[i]
                }
            &&& h == GraphV { edges: h.edges, open: h.open, ..g }
        }),
{
    let h = g.apply(OpV::RetireEdge { src, dst, kind, ts });
    let key = (g.ids[src], g.ids[dst], interner::number_of(g.kinds, kind));
    assert forall|i: int| joined(g, i, src, dst, kind) implies g.ids.contains_key(src)
        && g.ids.contains_key(dst) && g.kinds.contains(kind) && g.open.contains_key(key)
        && g.open[key] == i by {
        let e = g.edges[i];
        assert(g.ids[g.nodes[e.src as int].name] == e.src);
        assert(g.ids[g.nodes[e.dst as int].name] == e.dst);
        assert(e.kind_id < g.kinds.len());
        interner::lemma_number_of(g.kinds, e.kind_id as int);
        assert(e.key() == key);
    }
    if g.ids.contains_key(src) && g.ids.contains_key(dst) && g.kinds.contains(kind)
        && g.open.contains_key(key) {
        let i = g.open[key] as int;
        assert(g.edges[i].key() == key);
        assert(g.kinds[g.kinds.index_of(kind)] == kind);
        assert(joined(g, i, src, dst, kind));
    }
}

/// Where all mutations are accepted, the first of them are.
pub(crate) proof fn lemma_run_prefix(g: GraphV, ops: Seq<OpV>, k: int)
    requires
        snapshot::run(g, ops).1,
        0 <= k <= ops.len(),
    ensures
        snapshot::run(g, ops.take(k)).1,
        k < ops.len() ==> snapshot::run(g, ops.take(k)).0.accepts(ops[k]),
    decreases ops.len() - k,
{
    if k == ops.len() {
        assert(ops.take(k) =~= ops);
    } else if k == ops.len() - 1 {
        assert(ops.take(k) =~= ops.drop_last());
    } else {
        let front = ops.drop_last();
        lemma_run_prefix(g, front, k);
        assert(front.take(k) =~= ops.take(k));
        assert(front[k] == ops[k]);
    }
}

/// Running mutations that only observe adds records behind those that there are.
proof fn lemma_observations_add(g: GraphV, ops: Seq<OpV>, k: int)
    requires
        g.wf(),
        snapshot::run(g, ops).1,
        0 <= k <= ops.len(),
        forall|j: int| k <= j < ops.len() ==> observes(#[trigger] ops[j]),
    ensures
        ({
            let a = snapshot::run(g, ops.take(k));
            let b = snapshot::run(g, ops);
            &&& a.1
            &&& a.0.wf()
            &&& b.0.wf()
            &&& history::grew(a.0, b.0)
            &&& a.0.edges.is_prefix_of(b.0.edges)
        }),
    decreases ops.len() - k,
{
    history::running_only_adds(g, ops);
    if k == ops.len() {
        assert(ops.take(k) =~= ops);
        history::running_only_adds(g, ops.take(k));
        history::running_only_adds(snapshot::run(g, ops).0, Seq::empty());
    } else {
        let front = ops.drop_last();
        assert forall|j: int| k <= j < front.len() implies observes(#[trigger] front[j]) by {
            assert(front[j] == ops[j]);
        }
        lemma_observations_add(g, front, k);
        assert(front.take(k) =~= ops.take(k));
        let h = snapshot::run(g, front).0;
        assert(observes(ops[ops.len() - 1]));
        lemma_observation_edges(h, ops.last());
        history::history_is_append_only(h, ops.last());
        history::lemma_grew_trans(snapshot::run(g, ops.take(k)).0, h, h.apply(ops.last()));
    }
}

/// What was observed to be joined is joined: after mutations of which one
/// observes an edge and those behind it only observe, an open record leads from
/// the edge's first end to its second.
pub proof fn observed_edge_stays_joined(
    g: GraphV,
    ops: Seq<OpV>,
    k: int,
    src: Seq<char>,
    dst: Seq<char>,
    kind: Seq<char>,
    ts: Ts,
    origin: Option<Seq<char>>,
)
    requires
        g.wf(),
        snapshot::run(g, ops).1,
        0 <= k < ops.len(),
        ops[k] == (OpV::ObserveEdge { src, dst, kind, ts, origin }),
        forall|j: int| k < j < ops.len() ==> observes(#[trigger] ops[j]),
    ensures
        are_joined(snapshot::run(g, ops).0, src, dst, kind),
{
    assert forall|j: int| k <= j < ops.len() implies observes(#[trigger] ops[j]) by {}
    lemma_observations_add(g, ops, k);
    lemma_observations_add(g, ops, k + 1);
    let a = snapshot::run(g, ops.take(k)).0;
    let b = snapshot::run(g, ops.take(k + 1)).0;
    let c = snapshot::run(g, ops).0;
    assert(ops.take(k + 1).drop_last() =~= ops.take(k));
    assert(ops.take(k + 1).last() == ops[k]);
    observing_an_edge_joins_its_ends(a, src, dst, kind, ts, origin);
    let i = choose|i: int| joined(b, i, src, dst, kind);
    lemma_joined_stays(b, c, i, src, dst, kind);
    assert(joined(c, i, src, dst, kind));
}

/// The mutation observes that `src` is joined to `dst`.
pub open spec fn joins(op: OpV, src: Seq<char>, dst: Seq<char>, kind: Seq<char>) -> bool {
    match op {
        OpV::ObserveEdge { src: s, dst: d, kind: k, .. } => s == src && d == dst && k == kind,
        _ => false,
    }
}

/// The time and the label that an observation of an edge carries.
pub open spec fn joins_since(op: OpV, ts: Ts, label: Seq<char>) -> bool {
    match op {
        OpV::ObserveEdge { ts: t, origin, .. } => t == ts && label_text(origin) == label,
        _ => false,
    }
}

/// Nothing is joined that was not observed to be: an open record after some
/// mutations was an open record before them, or one of them observed it, at the
/// time and with the label that it has.
pub proof fn what_is_joined_was_observed(
    g: GraphV,
    ops: Seq<OpV>,
    i: int,
    src: Seq<char>,
    dst: Seq<char>,
    kind: Seq<char>,
)
    requires
        g.wf(),
        joined(snapshot::run(g, ops).0, i, src, dst, kind),
    ensures
        ({
            let h = snapshot::run(g, ops).0;
            ||| joined(g, i, src, dst, kind) && h.edges[i] == g.edges[i]
            ||| i >= g.edges.len() && exists|k: int|
                0 <= k < ops.len() && joins(#[trigger] ops[k], src, dst, kind) && joins_since(
                    ops[k],
                    h.edges[i].valid_from,
                    h.origins[h.edges[i].origin_id as int],
                )
        }),
    decreases ops.len(),
{
    if ops.len() > 0 {
        let front = ops.drop_last();
        let (m, ok) = snapshot::run(g, front);
        let h = snapshot::run(g, ops).0;
        history::running_only_adds(g, front);
        if ok && m.accepts(ops.last()) {
            history::history_is_append_only(m, ops.last());
            if i < m.edges.len() {
                let e = m.edges[i];
                assert(history::edge_grew(e, h.edges[i]));
                assert(e.valid_to == T_MAX) by {
                    lemma_open_was_open(m, ops.last(), i);
                }
                assert(e == h.edges[i]);
                assert(e.kind_id < m.kinds.len());
                assert(h.kinds[e.kind_id as int] == m.kinds[e.kind_id as int]);
                assert(h.origins[e.origin_id as int] == m.origins[e.origin_id as int]);
                assert(history::node_grew(m.nodes[e.src as int], h.nodes[e.src as int]));
                assert(history::node_grew(m.nodes[e.dst as int], h.nodes[e.dst as int]));
                assert(joined(m, i, src, dst, kind));
                what_is_joined_was_observed(g, front, i, src, dst, kind);
                if !joined(g, i, src, dst, kind) || h.edges[i] != g.edges[i] {
                    let k = choose|k: int|
                        0 <= k < front.len() && joins(#[trigger] front[k], src, dst, kind)
                            && joins_since(
                            front[k],
                            m.edges[i].valid_from,
                            m.origins[m.edges[i].origin_id as int],
                        );
                    assert(ops[k] == front[k]);
                }
            } else {
                history::running_only_adds(g, front);
                lemma_only_edges_add(m, ops.last(), i, src, dst, kind);
                assert(ops[ops.len() - 1] == ops.last());
            }
        } else {
            what_is_joined_was_observed(g, front, i, src, dst, kind);
            if !joined(g, i, src, dst, kind) || h.edges[i] != g.edges[i] {
                let k = choose|k: int|
                    0 <= k < front.len() && joins(#[trigger] front[k], src, dst, kind)
                        && joins_since(
                        front[k],
                        m.edges[i].valid_from,
                        m.origins[m.edges[i].origin_id as int],
                    );
                assert(ops[k] == front[k]);
            }
        }
    }
}

/// A record that a mutation leaves open was open.
proof fn lemma_open_was_open(g: GraphV, op: OpV, i: int)
    requires
        g.wf(),
        g.accepts(op),
        0 <= i < g.edges.len(),
        g.apply(op).edges[i].valid_to == T_MAX,
    ensures
        g.edges[i].valid_to == T_MAX,
{
    history::history_is_append_only(g, op);
    assert(history::edge_grew(g.edges[i], g.apply(op).edges[i]));
}

/// The one mutation that adds a record is the observation of its edge.
proof fn lemma_only_edges_add(
    g: GraphV,
    op: OpV,
    i: int,
    src: Seq<char>,
    dst: Seq<char>,
    kind: Seq<char>,
)
    requires
        g.wf(),
        g.accepts(op),
        g.edges.len() <= i,
        joined(g.apply(op), i, src, dst, kind),
    ensures
        joins(op, src, dst, kind),
        joins_since(
            op,
            g.apply(op).edges[i].valid_from,
            g.apply(op).origins[g.apply(op).edges[i].origin_id as int],
        ),
{
    match op {
        OpV::ObserveEdge { src: s, dst: d, kind: k, ts, origin } => {
            observing_an_edge_joins_its_ends(g, s, d, k, ts, origin);
        },
        OpV::RetireNode { name, ts } => {
            retiring_a_node_ends_it_and_its_edges(g, name, ts);
        },
        _ => {},
    }
}

/// A relation that was first observed among some observations has a record that
/// begins at the time of the first of them and has its label.
pub proof fn first_observation_counts(
    g: GraphV,
    ops: Seq<OpV>,
    k: int,
    src: Seq<char>,
    dst: Seq<char>,
    kind: Seq<char>,
    ts: Ts,
    origin: Option<Seq<char>>,
) -> (i: int)
    requires
        g.wf(),
        snapshot::run(g, ops).1,
        0 <= k < ops.len(),
        ops[k] == (OpV::ObserveEdge { src, dst, kind, ts, origin }),
        forall|j: int| k < j < ops.len() ==> observes(#[trigger] ops[j]),
        !are_joined(g, src, dst, kind),
        forall|j: int| 0 <= j < k ==> !joins(#[trigger] ops[j], src, dst, kind),
    ensures
        joined_since(snapshot::run(g, ops).0, i, src, dst, kind, ts, label_text(origin)),
{
    assert forall|j: int| k <= j < ops.len() implies observes(#[trigger] ops[j]) by {}
    lemma_observations_add(g, ops, k);
    lemma_observations_add(g, ops, k + 1);
    let before = ops.take(k);
    let a = snapshot::run(g, before).0;
    let b = snapshot::run(g, ops.take(k + 1)).0;
    let c = snapshot::run(g, ops).0;
    assert(ops.take(k + 1).drop_last() =~= before);
    assert(ops.take(k + 1).last() == ops[k]);
    assert(!are_joined(a, src, dst, kind)) by {
        if are_joined(a, src, dst, kind) {
            let i = choose|i: int| joined(a, i, src, dst, kind);
            what_is_joined_was_observed(g, before, i, src, dst, kind);
            assert forall|j: int| 0 <= j < before.len() implies !joins(
                #[trigger] before[j],
                src,
                dst,
                kind,
            ) by {
                assert(before[j] == ops[j]);
            }
        }
    }
    observing_an_edge_joins_its_ends(a, src, dst, kind, ts, origin);
    let i = a.edges.len() as int;
    lemma_joined_stays(b, c, i, src, dst, kind);
    i
}

/// Retiring nodes spares the edges between others.
pub proof fn retiring_nodes_spares_other_edges(
    g: GraphV,
    names: Seq<Seq<char>>,
    ts: Ts,
    i: int,
    src: Seq<char>,
    dst: Seq<char>,
    kind: Seq<char>,
)
    requires
        g.wf(),
        joined(g, i, src, dst, kind),
        !names.contains(src),
        !names.contains(dst),
    ensures
        query::retire_all(g, names, ts).wf(),
        joined(query::retire_all(g, names, ts), i, src, dst, kind),
        query::retire_all(g, names, ts).edges[i] == g.edges[i],
    decreases names.len(),
{
    if names.len() > 0 {
        let front = names.drop_last();
        assert(!front.contains(src)) by {
            if front.contains(src) {
                assert(names[front.index_of(src)] == src);
            }
        }
        assert(!front.contains(dst)) by {
            if front.contains(dst) {
                assert(names[front.index_of(dst)] == dst);
            }
        }
        retiring_nodes_spares_other_edges(g, front, ts, i, src, dst, kind);
        let m = query::retire_all(g, front, ts);
        let h = query::retire_all(g, names, ts);
        let last = names.last();
        assert(names[names.len() - 1] == last);
        assert(h == m.apply(OpV::RetireNode { name: last, ts }));
        retiring_a_node_ends_it_and_its_edges(m, last, ts);
        history::history_is_append_only(m, OpV::RetireNode { name: last, ts });
        let e = m.edges[i];
        assert(h.edges[i] == e);
        assert(history::node_grew(m.nodes[e.src as int], h.nodes[e.src as int]));
        assert(history::node_grew(m.nodes[e.dst as int], h.nodes[e.dst as int]));
    }
}

/// The mutation speaks of `name`: as the node that it observes or as an end of
/// the edge that it observes.
pub open spec fn names(op: OpV, name: Seq<char>) -> bool {
    match op {
        OpV::ObserveNode { name: n, .. } => n == name,
        OpV::ObservePlaceholder { name: n, .. } => n == name,
        OpV::ObserveEdge { src, dst, .. } => src == name || dst == name,
        _ => false,
    }
}

/// The mutation is about the node called `name` itself.
pub open spec fn is_about(op: OpV, name: Seq<char>) -> bool {
    match op {
        OpV::ObserveNode { name: n, .. } => n == name,
        OpV::ObservePlaceholder { name: n, .. } => n == name,
        OpV::RetireNode { name: n, .. } => n == name,
        _ => false,
    }
}

/// A node is left alone by every mutation that is about another, the edges that
/// begin or end at it among them, and its type and labels keep their texts.
pub proof fn other_nodes_are_left_alone(g: GraphV, op: OpV, m: int)
    requires
        g.wf(),
        g.accepts(op),
        0 <= m < g.nodes.len(),
        !is_about(op, g.nodes[m].name),
    ensures
        g.apply(op).nodes[m] == g.nodes[m],
        g.types.is_prefix_of(g.apply(op).types),
        g.origins.is_prefix_of(g.apply(op).origins),
{
    history::history_is_append_only(g, op);
    assert(g.ids[g.nodes[m].name] == m);
    match op {
        OpV::ObserveEdge { src, dst, kind, ts, origin } => {
            history::lemma_endpoints(g, src, dst, ts);
            let a = g.with_endpoint(src, ts);
            if !g.ids.contains_key(src) {
                mentioning_a_node_makes_it_stand(g, src, model::unknown_type(), ts, None);
            }
            assert(a.nodes[m] == g.nodes[m]);
            if !a.ids.contains_key(dst) {
                assert(a.ids[a.nodes[m].name] == m);
            }
        },
        OpV::RetireNode { name, ts } => {
            retiring_a_node_ends_it_and_its_edges(g, name, ts);
        },
        OpV::ObserveNode { name, asset_type, props, ts, origin } => {
            let n = observing_a_node_records_its_properties(g, name, asset_type, props, ts, origin);
        },
        OpV::ObservePlaceholder { name, inferred_type, ts, origin } => {
            let n = mentioning_a_node_makes_it_stand(g, name, inferred_type, ts, origin);
        },
        _ => {},
    }
}

/// A node that a mutation brings in is one that it names.
proof fn lemma_new_node_is_named(g: GraphV, op: OpV, m: int)
    requires
        g.wf(),
        g.accepts(op),
        g.nodes.len() <= m < g.apply(op).nodes.len(),
    ensures
        names(op, g.apply(op).nodes[m].name),
{
    match op {
        OpV::RetireNode { name, ts } => {
            retiring_a_node_ends_it_and_its_edges(g, name, ts);
        },
        OpV::ObserveEdge { src, dst, kind, ts, origin } => {
            history::lemma_endpoints(g, src, dst, ts);
        },
        _ => {},
    }
}

/// There is no node that was not named: a node after some mutations was there
/// before them, under the same name, or one of them names it.
pub proof fn what_is_called_was_named(g: GraphV, ops: Seq<OpV>, m: int)
    requires
        g.wf(),
        0 <= m < snapshot::run(g, ops).0.nodes.len(),
    ensures
        ({
            let name = snapshot::run(g, ops).0.nodes[m].name;
            called(g, m, name) || exists|k: int| 0 <= k < ops.len() && names(#[trigger] ops[k], name)
        }),
    decreases ops.len(),
{
    if ops.len() > 0 {
        let front = ops.drop_last();
        let (a, ok) = snapshot::run(g, front);
        let h = snapshot::run(g, ops).0;
        let name = h.nodes[m].name;
        history::running_only_adds(g, front);
        let added = ok && a.accepts(ops.last());
        if added {
            history::history_is_append_only(a, ops.last());
        }
        if m < a.nodes.len() {
            if added {
                assert(history::node_grew(a.nodes[m], h.nodes[m]));
            }
            what_is_called_was_named(g, front, m);
            if !called(g, m, name) {
                let k = choose|k: int| 0 <= k < front.len() && names(#[trigger] front[k], name);
                assert(ops[k] == front[k]);
            }
        } else {
            lemma_new_node_is_named(a, ops.last(), m);
            assert(ops[ops.len() - 1] == ops.last());
        }
    }
}

/// A node stays as one mutation left it while the ones behind are about others.
pub proof fn node_stays_as_it_was_left(g: GraphV, ops: Seq<OpV>, k: int, m: int)
    requires
        g.wf(),
        snapshot::run(g, ops).1,
        0 <= k <= ops.len(),
        0 <= m < snapshot::run(g, ops.take(k)).0.nodes.len(),
        forall|j: int|
            k <= j < ops.len() ==> !is_about(
                #[trigger] ops[j],
                snapshot::run(g, ops.take(k)).0.nodes[m].name,
            ),
    ensures
        ({
            let a = snapshot::run(g, ops.take(k));
            let b = snapshot::run(g, ops).0;
            &&& a.1
            &&& a.0.wf()
            &&& b.wf()
            &&& m < b.nodes.len()
            &&& b.nodes[m] == a.0.nodes[m]
            &&& a.0.types.is_prefix_of(b.types)
            &&& a.0.origins.is_prefix_of(b.origins)
        }),
    decreases ops.len() - k,
{
    history::running_only_adds(g, ops);
    if k == ops.len() {
        assert(ops.take(k) =~= ops);
    } else {
        let front = ops.drop_last();
        assert(front.take(k) =~= ops.take(k));
        assert forall|j: int| k <= j < front.len() implies !is_about(
            #[trigger] front[j],
            snapshot::run(g, front.take(k)).0.nodes[m].name,
        ) by {
            assert(front[j] == ops[j]);
        }
        node_stays_as_it_was_left(g, front, k, m);
        let h = snapshot::run(g, front).0;
        assert(!is_about(ops[ops.len() - 1], h.nodes[m].name));
        history::history_is_append_only(h, ops.last());
        other_nodes_are_left_alone(h, ops.last(), m);
    }
}

} // verus!
