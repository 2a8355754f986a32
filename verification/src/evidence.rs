//! What a snapshot is evidence of: what it asserts, and the absence of what it
//! would have asserted.

use crate::history;
use crate::interner;
use crate::model;
use crate::model::{Edge, GraphV, NodeV, OpV, Ts, VersionV, T_MAX};
use crate::query;
use crate::snapshot;
use vstd::prelude::*;

verus! {

// ---------------------------------------------------------------------------
// Nodes
// ---------------------------------------------------------------------------

/// A history that lies before `ts`: what has ended did so by then, and the last
/// version at most is open and began by then.
pub open spec fn settled(versions: Seq<VersionV>, ts: Ts) -> bool {
    forall|j: int|
        0 <= j < versions.len() ==> (#[trigger] versions[j]).observed_at <= ts && (
        versions[j].retired_at <= ts || (j == versions.len() - 1 && versions[j].retired_at
            == T_MAX))
}

proof fn lemma_settled(versions: Seq<VersionV>, ts: Ts)
    requires
        settled(versions, ts),
        ts < T_MAX,
    ensures
        model::version_at(versions, ts) == model::open_version(versions),
        model::version_at(model::closed_at(versions, ts), ts) is None,
{
    let c = model::closed_at(versions, ts);
    model::lemma_version_at_is_version(versions, ts);
    model::lemma_version_at_is_version(c, ts);
    if model::version_at(c, ts) is Some {
        let k = choose|k: int| 0 <= k < c.len() && c[k] == model::version_at(c, ts)->0;
        assert(versions[k].observed_at <= ts);
    }
    if model::open_version(versions) is None && model::version_at(versions, ts) is Some {
        let k = choose|k: int|
            0 <= k < versions.len() && versions[k] == model::version_at(versions, ts)->0;
        assert(versions[k].observed_at <= ts);
    }
    if model::open_version(versions) is Some {
        assert(versions[versions.len() - 1].observed_at <= ts);
    }
}

/// A node after retirement of those that are named.
spec fn retired(n: NodeV, names: Seq<Seq<char>>, ts: Ts) -> NodeV {
    if names.contains(n.name) {
        NodeV { versions: model::closed_at(n.versions, ts), ..n }
    } else {
        n
    }
}

proof fn lemma_retire_all_nodes(g: GraphV, names: Seq<Seq<char>>, ts: Ts)
    requires
        g.wf(),
        ts < T_MAX,
    ensures
        ({
            let h = query::retire_all(g, names, ts);
            &&& h.wf()
            &&& history::grew(g, h)
            &&& h.ids == g.ids
            &&& h.kinds == g.kinds
            &&& h.nodes.len() == g.nodes.len()
            &&& h.edges.len() == g.edges.len()
            &&& forall|i: int|
                0 <= i < g.nodes.len() ==> #[trigger] h.nodes[i] == retired(g.nodes[i], names, ts)
        }),
    decreases names.len(),
{
    if names.len() == 0 {
        history::running_only_adds(g, Seq::empty());
    } else {
        let front = names.drop_last();
        let name = names.last();
        lemma_retire_all_nodes(g, front, ts);
        let m = query::retire_all(g, front, ts);
        let h = query::retire_all(g, names, ts);
        let op = OpV::RetireNode { name, ts };
        history::history_is_append_only(m, op);
        history::running_only_adds(g, Seq::empty());
        assert(h == m.apply(op));
        history::lemma_grew_trans(g, m, h);
        if m.ids.contains_key(name) {
            let id = m.ids[name];
            m.lemma_touching_in_range(id);
            let n = m.nodes[id as int];
            let x = GraphV {
                nodes: m.nodes.update(
                    id as int,
                    NodeV { versions: model::closed_at(n.versions, ts), ..n },
                ),
                ..m
            };
            x.lemma_close_edges_frame(m.out_ids(id) + m.in_ids(id), ts);
        }
        assert(names =~= front.push(name));
        assert forall|i: int| 0 <= i < g.nodes.len() implies #[trigger] h.nodes[i] == retired(
            g.nodes[i],
            names,
            ts,
        ) by {
            let n = g.nodes[i];
            assert(m.nodes[i] == retired(n, front, ts));
            assert(g.ids[n.name] == i);
            assert(names.contains(n.name) == (front.contains(n.name) || n.name == name)) by {
                if front.contains(n.name) {
                    assert(names[front.index_of(n.name)] == n.name);
                }
                if names.contains(n.name) && n.name != name {
                    assert(front[names.index_of(n.name)] == n.name);
                }
                assert(names[names.len() - 1] == name);
            }
            assert(model::closed_at(model::closed_at(n.versions, ts), ts) =~= model::closed_at(
                n.versions,
                ts,
            ));
        }
    }
}

/// Retirements of edges leave everything but the records of edges alone.
proof fn lemma_retirements_frame(g: GraphV, rs: Seq<OpV>)
    requires
        g.wf(),
        forall|k: int| 0 <= k < rs.len() ==> #[trigger] rs[k] is RetireEdge,
    ensures
        ({
            let h = g.apply_all(rs);
            &&& h == (GraphV { edges: h.edges, open: h.open, ..g })
            &&& h.edges.len() == g.edges.len()
            &&& h.wf()
            &&& history::grew(g, h)
        }),
    decreases rs.len(),
{
    if rs.len() == 0 {
        history::running_only_adds(g, Seq::empty());
    } else {
        let front = rs.drop_last();
        assert forall|k: int| 0 <= k < front.len() implies #[trigger] front[k] is RetireEdge by {
            assert(rs[k] is RetireEdge);
        }
        lemma_retirements_frame(g, front);
        let m = g.apply_all(front);
        assert(rs[rs.len() - 1] is RetireEdge);
        history::history_is_append_only(m, rs.last());
        history::lemma_grew_trans(g, m, m.apply(rs.last()));
    }
}

proof fn lemma_all_retirements(g: GraphV, ops: Seq<OpV>, srcs: Seq<Seq<char>>, ts: Ts)
    ensures
        forall|k: int|
            0 <= k < snapshot::all_stale_edges(g, ops, srcs, ts).len() ==> (
            #[trigger] snapshot::all_stale_edges(g, ops, srcs, ts)[k] matches OpV::RetireEdge {
                src,
                ts: when,
                ..
            } && when == ts && srcs.contains(src)),
    decreases srcs.len(),
{
    if srcs.len() > 0 {
        let front = srcs.drop_last();
        lemma_all_retirements(g, ops, front, ts);
        let a = snapshot::all_stale_edges(g, ops, front, ts);
        let b = snapshot::stale_edges(g, ops, srcs.last(), ts);
        let all = snapshot::all_stale_edges(g, ops, srcs, ts);
        assert forall|k: int| 0 <= k < all.len() implies (
        #[trigger] all[k] matches OpV::RetireEdge { src, ts: when, .. } && when == ts
            && srcs.contains(src)) by {
            if k < a.len() {
                assert(all[k] == a[k]);
                let s = a[k]->RetireEdge_src;
                assert(srcs[front.index_of(s)] == s);
            } else {
                assert(all[k] == b[k - a.len()]);
                assert(srcs[srcs.len() - 1] == srcs.last());
            }
        }
    }
}

/// No zombies: after reconciliation with a full snapshot, an observed node that
/// is alive is one that the snapshot names. Nodes that it names, placeholders,
/// and nodes that were gone already stay as they were.
pub proof fn reconciliation_leaves_no_zombies(
    g: GraphV,
    ops: Seq<OpV>,
    names: Set<Seq<char>>,
    ts: Ts,
    i: int,
)
    requires
        g.wf(),
        ts < T_MAX,
        0 <= i < g.nodes.len(),
        settled(g.nodes[i].versions, ts),
    ensures
        ({
            let h = snapshot::reconciled(g, ops, names, ts).0;
            let a = g.nodes[i];
            let b = h.nodes[i];
            &&& h.nodes.len() == g.nodes.len()
            &&& !b.placeholder && b.alive_at(ts) ==> names.contains(b.name)
            &&& a.placeholder || names.contains(a.name) || !a.alive_at(ts) ==> b == a
        }),
{
    let rs = snapshot::all_stale_edges(g, ops, snapshot::observed(ops), ts);
    lemma_all_retirements(g, ops, snapshot::observed(ops), ts);
    assert forall|k: int| 0 <= k < rs.len() implies #[trigger] rs[k] is RetireEdge by {}
    lemma_retirements_frame(g, rs);
    let g2 = g.apply_all(rs);
    let p = query::stale(names, ts);
    let list = query::named(g2, p);
    lemma_retire_all_nodes(g2, list, ts);
    let n = g2.nodes[i];
    assert(n == g.nodes[i]);
    lemma_settled(n.versions, ts);
    lemma_named(g2, p, i);
    let h = query::retire_all(g2, list, ts);
    assert(h.nodes[i] == retired(g2.nodes[i], list, ts));
}

/// An edge after retirement of the nodes that are named: what of theirs was
/// open ends.
pub open spec fn ended(g: GraphV, e: Edge, names: Seq<Seq<char>>, ts: Ts) -> Edge {
    if e.valid_to == T_MAX && (names.contains(g.nodes[e.src as int].name) || names.contains(
        g.nodes[e.dst as int].name,
    )) {
        Edge { valid_to: ts, ..e }
    } else {
        e
    }
}

proof fn lemma_closed_edge(g: GraphV, eids: Seq<u32>, ts: Ts, j: int)
    requires
        ts < T_MAX,
        0 <= j < g.edges.len() <= u32::MAX,
        forall|k: int| 0 <= k < eids.len() ==> (#[trigger] eids[k]) < g.edges.len(),
    ensures
        g.close_edges(eids, ts).edges.len() == g.edges.len(),
        g.close_edges(eids, ts).edges[j] == (if eids.contains(j as u32) && g.edges[j].valid_to
            == T_MAX {
            Edge { valid_to: ts, ..g.edges[j] }
        } else {
            g.edges[j]
        }),
    decreases eids.len(),
{
    if eids.len() > 0 {
        let front = eids.drop_last();
        assert forall|k: int| 0 <= k < front.len() implies (#[trigger] front[k]) < g.edges.len() by {
            assert(eids[k] < g.edges.len());
        }
        lemma_closed_edge(g, front, ts, j);
        assert(eids[eids.len() - 1] < g.edges.len());
        if front.contains(j as u32) {
            assert(eids[front.index_of(j as u32)] == j);
        }
        if eids.contains(j as u32) && eids.last() != j {
            assert(front[eids.index_of(j as u32)] == j);
        }
    }
}

proof fn lemma_retire_all_edges(g: GraphV, names: Seq<Seq<char>>, ts: Ts, j: int)
    requires
        g.wf(),
        ts < T_MAX,
        0 <= j < g.edges.len(),
    ensures
        query::retire_all(g, names, ts).edges[j] == ended(g, g.edges[j], names, ts),
    decreases names.len(),
{
    if names.len() > 0 {
        let front = names.drop_last();
        let name = names.last();
        lemma_retire_all_edges(g, front, ts, j);
        lemma_retire_all_nodes(g, front, ts);
        let m = query::retire_all(g, front, ts);
        let e = g.edges[j];
        assert(e.src < g.nodes.len() && e.dst < g.nodes.len());
        let a = g.nodes[e.src as int];
        let b = g.nodes[e.dst as int];
        assert(m.nodes[e.src as int] == retired(a, front, ts));
        assert(m.nodes[e.dst as int] == retired(b, front, ts));
        assert(g.ids[a.name] == e.src && g.ids[b.name] == e.dst);
        assert(names =~= front.push(name));
        lemma_last_or_before(names, a.name);
        lemma_last_or_before(names, b.name);
        if m.ids.contains_key(name) {
            let id = m.ids[name];
            let n = m.nodes[id as int];
            let x = GraphV {
                nodes: m.nodes.update(
                    id as int,
                    NodeV { versions: model::closed_at(n.versions, ts), ..n },
                ),
                ..m
            };
            let out = m.out_ids(id);
            let all = out + m.in_ids(id);
            m.lemma_touching_in_range(id);
            lemma_closed_edge(x, all, ts, j);
            model::lemma_edge_ids(m.edges, model::leaves(id));
            model::lemma_edge_ids(m.edges, model::arrives(id));
            assert(m.edges[j].src == e.src && m.edges[j].dst == e.dst);
            if e.src == id {
                assert(model::leaves(id)(m.edges[j]));
                assert(all[out.index_of(j as u32)] == j);
            }
            if e.dst == id {
                assert(model::arrives(id)(m.edges[j]));
                assert(all[out.len() + m.in_ids(id).index_of(j as u32)] == j);
            }
            if all.contains(j as u32) {
                let k = all.index_of(j as u32);
                if k < out.len() {
                    assert(out[k] == j);
                } else {
                    assert(m.in_ids(id)[k - out.len()] == j);
                }
            }
        }
    }
}

proof fn lemma_last_or_before(names: Seq<Seq<char>>, s: Seq<char>)
    requires
        names.len() > 0,
    ensures
        names.contains(s) == (names.drop_last().contains(s) || s == names.last()),
{
    let front = names.drop_last();
    if front.contains(s) {
        assert(names[front.index_of(s)] == s);
    }
    if names.contains(s) && s != names.last() {
        assert(front[names.index_of(s)] == s);
    }
    assert(names[names.len() - 1] == names.last());
}

/// A name is listed where its node is one of those that are looked for.
proof fn lemma_named(g: GraphV, p: spec_fn(NodeV) -> bool, i: int)
    requires
        g.wf(),
        0 <= i < g.nodes.len(),
    ensures
        query::named(g, p).contains(g.nodes[i].name) == p(g.nodes[i]),
{
    let list = query::named(g, p);
    let kept = g.nodes.filter(p);
    let n = g.nodes[i];
    query::lemma_filter_members(g.nodes, p);
    if p(n) {
        assert(g.nodes.contains(n));
        assert(kept.contains(n));
        assert(list[kept.index_of(n)] == n.name);
    }
    if list.contains(n.name) {
        let k = list.index_of(n.name);
        let m = kept[k];
        assert(g.nodes.contains(m));
        let j = g.nodes.index_of(m);
        assert(g.ids[g.nodes[j].name] == j);
        assert(g.ids[g.nodes[i].name] == i);
    }
}

/// Reconciling retires the observed nodes that were not seen, each with all of
/// its edges, and leaves every other node and edge as it was. Done again it
/// finds nothing to retire and changes nothing. The graph holds nothing later
/// than the time of reconciliation.
pub proof fn reconciling_again_changes_nothing(g: GraphV, seen: Set<Seq<char>>, ts: Ts)
    requires
        g.wf(),
        ts < T_MAX,
        forall|i: int| 0 <= i < g.nodes.len() ==> settled((#[trigger] g.nodes[i]).versions, ts),
    ensures
        ({
            let list = query::named(g, query::stale(seen, ts));
            let h = query::retire_all(g, list, ts);
            let again = query::named(h, query::stale(seen, ts));
            &&& again == Seq::<Seq<char>>::empty()
            &&& query::retire_all(h, again, ts) == h
            &&& h.nodes.len() == g.nodes.len()
            &&& h.edges.len() == g.edges.len()
            &&& forall|i: int|
                0 <= i < g.nodes.len() ==> if query::stale(seen, ts)(g.nodes[i]) {
                    !(#[trigger] h.nodes[i]).alive_at(ts)
                } else {
                    h.nodes[i] == g.nodes[i]
                }
            &&& forall|j: int|
                0 <= j < g.edges.len() ==> #[trigger] h.edges[j] == ended(g, g.edges[j], list, ts)
        }),
{
    let p = query::stale(seen, ts);
    let list = query::named(g, p);
    let h = query::retire_all(g, list, ts);
    lemma_retire_all_nodes(g, list, ts);
    assert forall|i: int| 0 <= i < g.nodes.len() implies if p(g.nodes[i]) {
        !(#[trigger] h.nodes[i]).alive_at(ts)
    } else {
        h.nodes[i] == g.nodes[i]
    } by {
        lemma_named(g, p, i);
        lemma_settled(g.nodes[i].versions, ts);
        assert(h.nodes[i] == retired(g.nodes[i], list, ts));
    }
    assert forall|j: int| 0 <= j < g.edges.len() implies #[trigger] h.edges[j] == ended(
        g,
        g.edges[j],
        list,
        ts,
    ) by {
        lemma_retire_all_edges(g, list, ts, j);
    }
    let kept = h.nodes.filter(p);
    query::lemma_filter_members(h.nodes, p);
    if kept.len() > 0 {
        let n = kept[0];
        assert(kept.contains(n));
        assert(h.nodes.contains(n));
        let i = h.nodes.index_of(n);
        assert(!p(h.nodes[i]));
    }
    assert(query::named(h, p) =~= Seq::empty());
}

// ---------------------------------------------------------------------------
// Edges
// ---------------------------------------------------------------------------

/// Whether a mutation retires the relation of a record.
pub open spec fn retires(g: GraphV, op: OpV, e: Edge) -> bool {
    match op {
        OpV::RetireEdge { src, dst, kind, .. } => {
            &&& src == g.nodes[e.src as int].name
            &&& dst == g.nodes[e.dst as int].name
            &&& kind == g.kinds[e.kind_id as int]
        },
        _ => false,
    }
}

proof fn lemma_retirements(g: GraphV, rs: Seq<OpV>, ts: Ts, i: int)
    requires
        g.wf(),
        history::one_open_record(g),
        ts < T_MAX,
        0 <= i < g.edges.len(),
        forall|k: int|
            0 <= k < rs.len() ==> #[trigger] rs[k] is RetireEdge && rs[k]->RetireEdge_ts == ts,
    ensures
        history::one_open_record(g.apply_all(rs)),
        (exists|k: int| 0 <= k < rs.len() && retires(g, #[trigger] rs[k], g.edges[i]))
            ==> g.apply_all(rs).edges[i].valid_to != T_MAX,
        (forall|k: int| 0 <= k < rs.len() ==> !retires(g, #[trigger] rs[k], g.edges[i]))
            ==> g.apply_all(rs).edges[i] == g.edges[i],
    decreases rs.len(),
{
    if rs.len() > 0 {
        let front = rs.drop_last();
        assert forall|k: int| 0 <= k < front.len() implies #[trigger] front[k] is RetireEdge
            && front[k]->RetireEdge_ts == ts by {
            assert(rs[k] is RetireEdge);
        }
        lemma_retirements(g, front, ts, i);
        assert forall|k: int| 0 <= k < front.len() implies #[trigger] front[k] is RetireEdge by {}
        lemma_retirements_frame(g, front);
        let m = g.apply_all(front);
        let op = rs.last();
        assert(op == rs[rs.len() - 1]);
        let h = m.apply(op);
        assert(h == g.apply_all(rs));
        history::relation_has_one_open_record(m, op);
        history::history_is_append_only(m, op);
        let e = g.edges[i];
        assert(history::edge_grew(g.edges[i], m.edges[i]));
        assert(history::edge_grew(m.edges[i], h.edges[i]));
        let s = op->RetireEdge_src;
        let d = op->RetireEdge_dst;
        let k = op->RetireEdge_kind;
        assert(e.src < g.nodes.len() && e.dst < g.nodes.len() && e.kind_id < g.kinds.len());
        assert(g.ids[g.nodes[e.src as int].name] == e.src);
        assert(g.ids[g.nodes[e.dst as int].name] == e.dst);
        if retires(g, op, e) {
            history::retired_edge_is_closed(m, e.src, e.dst, k, ts);
            assert(h == m.retire_edge(e.src, e.dst, k, ts));
        } else if h.edges[i] != m.edges[i] {
            let key = (m.ids[s], m.ids[d], interner::number_of(m.kinds, k));
            assert(m.open[key] == i);
            assert(m.edges[i].key() == key);
            assert(m.kinds.contains(k));
            assert(m.kinds[e.kind_id as int] == k);
            assert(false);
        }
        if exists|k: int| 0 <= k < rs.len() && retires(g, #[trigger] rs[k], e) {
            let k = choose|k: int| 0 <= k < rs.len() && retires(g, #[trigger] rs[k], e);
            if k < front.len() {
                assert(retires(g, front[k], e));
            }
        }
        if forall|k: int| 0 <= k < rs.len() ==> !retires(g, #[trigger] rs[k], e) {
            assert(!retires(g, rs[rs.len() - 1], e));
            assert forall|k: int| 0 <= k < front.len() implies !retires(
                g,
                #[trigger] front[k],
                e,
            ) by {
                assert(!retires(g, rs[k], e));
            }
        }
    }
}

proof fn lemma_stale_listed(g: GraphV, ops: Seq<OpV>, srcs: Seq<Seq<char>>, ts: Ts, i: int)
    requires
        g.wf(),
        0 <= i < g.edges.len(),
        g.edges[i].valid_to == T_MAX,
        srcs.contains(g.nodes[g.edges[i].src as int].name),
        !snapshot::asserts_edge(
            ops,
            g.nodes[g.edges[i].src as int].name,
            g.nodes[g.edges[i].dst as int].name,
            g.kinds[g.edges[i].kind_id as int],
        ),
    ensures
        exists|k: int|
            0 <= k < snapshot::all_stale_edges(g, ops, srcs, ts).len() && retires(
                g,
                #[trigger] snapshot::all_stale_edges(g, ops, srcs, ts)[k],
                g.edges[i],
            ),
    decreases srcs.len(),
{
    let e = g.edges[i];
    let src = g.nodes[e.src as int].name;
    let front = srcs.drop_last();
    let a = snapshot::all_stale_edges(g, ops, front, ts);
    let all = snapshot::all_stale_edges(g, ops, srcs, ts);
    if srcs.last() == src {
        assert(e.src < g.nodes.len());
        assert(g.ids[src] == e.src);
        let outs = g.out_ids(e.src);
        model::lemma_edge_ids(g.edges, model::leaves(e.src));
        assert(model::leaves(e.src)(e));
        assert(outs.contains(i as u32));
        let open = outs.filter(query::is_open(g));
        query::lemma_filter_members(outs, query::is_open(g));
        assert(query::is_open(g)(i as u32));
        let k = open.index_of(i as u32);
        let targets = query::open_targets(g, src);
        let pair = query::target(g)(i as u32);
        assert(targets[k] == pair);
        assert(targets.contains(pair));
        let q = snapshot::unasserted(ops, src);
        query::lemma_filter_members(targets, q);
        assert(q(pair));
        let m = targets.filter(q).index_of(pair);
        let b = snapshot::stale_edges(g, ops, src, ts);
        assert(b[m] == snapshot::retirement(src, ts)(pair));
        assert(retires(g, b[m], e));
        assert(all[a.len() + m] == b[m]);
    } else {
        let j = srcs.index_of(src);
        assert(front[j] == src);
        lemma_stale_listed(g, ops, front, ts, i);
        let k = choose|k: int| 0 <= k < a.len() && retires(g, #[trigger] a[k], e);
        assert(all[k] == a[k]);
    }
}

/// A snapshot is evidence of absence for the edges of the nodes that it
/// observes: one that it does not assert is not open afterwards.
pub proof fn unasserted_edges_are_closed(
    g: GraphV,
    ops: Seq<OpV>,
    names: Set<Seq<char>>,
    ts: Ts,
    i: int,
)
    requires
        g.wf(),
        history::one_open_record(g),
        ts < T_MAX,
        0 <= i < g.edges.len(),
        snapshot::observed(ops).contains(g.nodes[g.edges[i].src as int].name),
        !snapshot::asserts_edge(
            ops,
            g.nodes[g.edges[i].src as int].name,
            g.nodes[g.edges[i].dst as int].name,
            g.kinds[g.edges[i].kind_id as int],
        ),
    ensures
        snapshot::reconciled(g, ops, names, ts).0.edges[i].valid_to != T_MAX,
{
    let rs = snapshot::all_stale_edges(g, ops, snapshot::observed(ops), ts);
    lemma_all_retirements(g, ops, snapshot::observed(ops), ts);
    assert forall|k: int| 0 <= k < rs.len() implies #[trigger] rs[k] is RetireEdge
        && rs[k]->RetireEdge_ts == ts by {}
    assert forall|k: int| 0 <= k < rs.len() implies #[trigger] rs[k] is RetireEdge by {}
    lemma_retirements_frame(g, rs);
    lemma_retirements(g, rs, ts, i);
    let g2 = g.apply_all(rs);
    assert(history::edge_grew(g.edges[i], g2.edges[i]));
    if g.edges[i].valid_to == T_MAX {
        lemma_stale_listed(g, ops, snapshot::observed(ops), ts, i);
    }
    let list = query::named(g2, query::stale(names, ts));
    lemma_retire_all_nodes(g2, list, ts);
    assert(history::edge_grew(g2.edges[i], query::retire_all(g2, list, ts).edges[i]));
}

/// It is not for other nodes: the edges of a node that the snapshot does not
/// observe stay as they are, as long as no end of them is retired.
pub proof fn edges_of_unobserved_nodes_stay(
    g: GraphV,
    ops: Seq<OpV>,
    names: Set<Seq<char>>,
    ts: Ts,
    i: int,
)
    requires
        g.wf(),
        history::one_open_record(g),
        ts < T_MAX,
        0 <= i < g.edges.len(),
        !snapshot::observed(ops).contains(g.nodes[g.edges[i].src as int].name),
        !snapshot::reconciled(g, ops, names, ts).1.contains(g.nodes[g.edges[i].src as int].name),
        !snapshot::reconciled(g, ops, names, ts).1.contains(g.nodes[g.edges[i].dst as int].name),
    ensures
        snapshot::reconciled(g, ops, names, ts).0.edges[i] == g.edges[i],
{
    let rs = snapshot::all_stale_edges(g, ops, snapshot::observed(ops), ts);
    lemma_all_retirements(g, ops, snapshot::observed(ops), ts);
    assert forall|k: int| 0 <= k < rs.len() implies #[trigger] rs[k] is RetireEdge
        && rs[k]->RetireEdge_ts == ts by {}
    assert forall|k: int| 0 <= k < rs.len() implies #[trigger] rs[k] is RetireEdge by {}
    lemma_retirements_frame(g, rs);
    lemma_retirements(g, rs, ts, i);
    let g2 = g.apply_all(rs);
    assert forall|k: int| 0 <= k < rs.len() implies !retires(g, #[trigger] rs[k], g.edges[i]) by {
        assert(snapshot::observed(ops).contains(rs[k]->RetireEdge_src));
    }
    assert(g2.edges[i] == g.edges[i]);
    let list = query::named(g2, query::stale(names, ts));
    lemma_retire_all_edges(g2, list, ts, i);
}

/// Whether a mutation is an observation.
pub open spec fn observes(op: OpV) -> bool {
    !(op is RetireNode) && !(op is RetireEdge)
}

/// A partial snapshot is no evidence of absence: without reconciliation no edge
/// ends, and what was alive is still open.
pub proof fn partial_snapshot_retires_nothing(
    g: GraphV,
    ops: Seq<OpV>,
    names: Set<Seq<char>>,
    ts: Ts,
)
    requires
        g.wf(),
        forall|k: int| 0 <= k < ops.len() ==> observes(#[trigger] ops[k]),
    ensures
        ({
            let h = snapshot::ingested(g, ops, names, ts, false).0;
            &&& forall|i: int| 0 <= i < g.edges.len() ==> #[trigger] h.edges[i] == g.edges[i]
            &&& forall|i: int|
                0 <= i < g.nodes.len() && model::open_version(
                    (#[trigger] g.nodes[i]).versions,
                ) is Some ==> model::open_version(h.nodes[i].versions) is Some
        }),
    decreases ops.len(),
{
    if ops.len() > 0 {
        let front = ops.drop_last();
        assert forall|k: int| 0 <= k < front.len() implies observes(#[trigger] front[k]) by {
            assert(observes(ops[k]));
        }
        partial_snapshot_retires_nothing(g, front, names, ts);
        history::running_only_adds(g, front);
        let (m, ok) = snapshot::run(g, front);
        let op = ops.last();
        assert(observes(ops[ops.len() - 1]));
        if ok && m.accepts(op) {
            lemma_observation_keeps(m, op);
            let h = m.apply(op);
            assert forall|i: int|
                0 <= i < g.nodes.len() && model::open_version(
                    (#[trigger] g.nodes[i]).versions,
                ) is Some implies model::open_version(h.nodes[i].versions) is Some by {
                assert(model::open_version(m.nodes[i].versions) is Some);
            }
        }
    }
}

proof fn lemma_observation_keeps(g: GraphV, op: OpV)
    requires
        g.wf(),
        g.accepts(op),
        observes(op),
    ensures
        g.apply(op).edges.len() >= g.edges.len(),
        forall|i: int| 0 <= i < g.edges.len() ==> #[trigger] g.apply(op).edges[i] == g.edges[i],
        forall|i: int|
            0 <= i < g.nodes.len() && model::open_version((#[trigger] g.nodes[i]).versions) is Some
                ==> model::open_version(g.apply(op).nodes[i].versions) is Some,
{
    match op {
        OpV::ObserveEdge { src, dst, kind, ts, origin } => {
            history::lemma_endpoints(g, src, dst, ts);
            let a = g.with_endpoint(src, ts);
            let b = a.with_endpoint(dst, ts);
            assert forall|i: int|
                0 <= i < g.nodes.len() && model::open_version(
                    (#[trigger] g.nodes[i]).versions,
                ) is Some implies model::open_version(b.nodes[i].versions) is Some by {
                assert(model::open_version(a.nodes[i].versions) is Some);
            }
        },
        _ => {},
    }
}

} // verus!
