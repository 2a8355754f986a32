//! Laws of reconciliation with a complete snapshot, stated over the records of
//! the graph: which edges and which nodes a snapshot ends, and when.

use crate::history;
use crate::model;
use crate::model::{Edge, GraphV, NodeV, OpV, Ts, VersionV, T_MAX};
use crate::moments;
use crate::query;
use crate::recording;
use crate::snapshot;
use vstd::prelude::*;

verus! {

/// Some mutation observes the node called `name` itself.
pub open spec fn is_observed(ops: Seq<OpV>, name: Seq<char>) -> bool {
    exists|k: int|
        0 <= k < ops.len() && (match #[trigger] ops[k] {
            OpV::ObserveNode { name: n, .. } => n == name,
            _ => false,
        })
}

/// Some mutation observes that `src` is joined to `dst`.
pub open spec fn is_asserted(ops: Seq<OpV>, src: Seq<char>, dst: Seq<char>, kind: Seq<char>) -> bool {
    exists|k: int| 0 <= k < ops.len() && recording::joins(#[trigger] ops[k], src, dst, kind)
}

proof fn lemma_observed(ops: Seq<OpV>, name: Seq<char>)
    ensures
        snapshot::observed(ops).contains(name) <==> is_observed(ops, name),
    decreases ops.len(),
{
    if ops.len() > 0 {
        let front = ops.drop_last();
        let before = snapshot::observed(front);
        let all = snapshot::observed(ops);
        lemma_observed(front, name);
        if before.contains(name) {
            let i = before.index_of(name);
            assert(all[i] == name);
            let k = choose|k: int|
                0 <= k < front.len() && (match #[trigger] front[k] {
                    OpV::ObserveNode { name: n, .. } => n == name,
                    _ => false,
                });
            assert(ops[k] == front[k]);
        }
        assert(ops[ops.len() - 1] == ops.last());
        if is_observed(ops, name) {
            let k = choose|k: int|
                0 <= k < ops.len() && (match #[trigger] ops[k] {
                    OpV::ObserveNode { name: n, .. } => n == name,
                    _ => false,
                });
            if k < front.len() {
                assert(front[k] == ops[k]);
            } else if !before.contains(name) {
                assert(all[before.len() as int] == name);
            }
        }
        if all.contains(name) && !before.contains(name) {
            let i = all.index_of(name);
            if i < before.len() {
                assert(before[i] == name);
            }
        }
    }
}

proof fn lemma_asserted(ops: Seq<OpV>, src: Seq<char>, dst: Seq<char>, kind: Seq<char>)
    ensures
        snapshot::asserts_edge(ops, src, dst, kind) <==> is_asserted(ops, src, dst, kind),
    decreases ops.len(),
{
    if ops.len() > 0 {
        let front = ops.drop_last();
        lemma_asserted(front, src, dst, kind);
        assert(ops[ops.len() - 1] == ops.last());
        if is_asserted(front, src, dst, kind) {
            let k = choose|k: int|
                0 <= k < front.len() && recording::joins(#[trigger] front[k], src, dst, kind);
            assert(ops[k] == front[k]);
        }
        if is_asserted(ops, src, dst, kind) {
            let k = choose|k: int|
                0 <= k < ops.len() && recording::joins(#[trigger] ops[k], src, dst, kind);
            if k < front.len() {
                assert(front[k] == ops[k]);
            }
        }
    }
}

/// The targets listed for a node are those of the open edges that leave it, with
/// their kinds, in the order in which the edges were observed.
pub proof fn open_targets_are_those_of_open_edges(g: GraphV, src: Seq<char>)
    requires
        g.wf(),
    ensures
        moments::lists(
            query::open_targets(g, src),
            g.edges.len(),
            |i: int|
                g.edges[i].valid_to == T_MAX && g.nodes[g.edges[i].src as int].name == src,
            |i: int|
                (
                    g.nodes[g.edges[i].dst as int].name,
                    g.kinds[g.edges[i].kind_id as int],
                ),
        ),
{
    let at = lemma_open_targets(g, src);
}

proof fn lemma_open_targets(g: GraphV, src: Seq<char>) -> (at: Seq<int>)
    requires
        g.wf(),
    ensures
        moments::listed_at(
            at,
            query::open_targets(g, src),
            g.edges.len(),
            |i: int|
                g.edges[i].valid_to == T_MAX && g.nodes[g.edges[i].src as int].name == src,
            |i: int|
                (
                    g.nodes[g.edges[i].dst as int].name,
                    g.kinds[g.edges[i].kind_id as int],
                ),
        ),
{
    let chosen = |i: int|
        g.edges[i].valid_to == T_MAX && g.nodes[g.edges[i].src as int].name == src;
    let item = |i: int|
        (g.nodes[g.edges[i].dst as int].name, g.kinds[g.edges[i].kind_id as int]);
    let list = query::open_targets(g, src);
    if g.ids.contains_key(src) {
        let id = g.ids[src];
        let ids = g.out_ids(id);
        let p = query::is_open(g);
        let f = ids.filter(p);
        let inner = moments::lemma_filter_lists(ids, p);
        let picked = |k: int| p(ids[k]);
        model::lemma_edge_ids(g.edges, model::leaves(id));
        let at = Seq::new(inner.len(), |k: int| ids[inner[k]] as int);
        assert forall|k: int| 0 <= k < at.len() implies 0 <= (#[trigger] at[k]) < g.edges.len()
            && chosen(at[k]) && list[k] == item(at[k]) by {
            assert(picked(inner[k]));
            assert(f[k] == ids[inner[k]]);
            assert(model::leaves(id)(g.edges[ids[inner[k]] as int]));
        }
        assert forall|i: int, j: int| 0 <= i < j < at.len() implies #[trigger] at[i]
            < #[trigger] at[j] by {
            assert(inner[i] < inner[j]);
            assert(picked(inner[i]) && picked(inner[j]));
        }
        assert forall|i: int| 0 <= i < g.edges.len() && #[trigger] chosen(i) implies at.contains(
            i,
        ) by {
            let e = g.edges[i];
            assert(g.ids[g.nodes[e.src as int].name] == e.src);
            assert(model::leaves(id)(e));
            let q = ids.index_of(i as u32);
            assert(picked(q));
            let k = inner.index_of(q);
            assert(at[k] == i);
        }
        at
    } else {
        assert forall|i: int| 0 <= i < g.edges.len() implies !#[trigger] chosen(i) by {
            let e = g.edges[i];
            assert(g.ids.contains_key(g.nodes[e.src as int].name));
        }
        Seq::empty()
    }
}

/// Which retirements a snapshot brings for the edges of one node.
proof fn lemma_stale_edges(g: GraphV, ops: Seq<OpV>, src: Seq<char>, ts: Ts)
    requires
        g.wf(),
    ensures
        ({
            let r = snapshot::stale_edges(g, ops, src, ts);
            &&& forall|k: int|
                0 <= k < r.len() ==> is_stale_op(ops, #[trigger] r[k], ts)
            &&& forall|i: int, dst: Seq<char>, kind: Seq<char>| #[trigger]
                recording::joined(g, i, src, dst, kind) && !is_asserted(ops, src, dst, kind)
                    ==> r.contains(OpV::RetireEdge { src, dst, kind, ts })
            &&& forall|k: int|
                0 <= k < r.len() ==> (#[trigger] r[k]) is RetireEdge && r[k]->RetireEdge_src == src
        }),
{
    let t = query::open_targets(g, src);
    let p = snapshot::unasserted(ops, src);
    let r = snapshot::stale_edges(g, ops, src, ts);
    let at = lemma_open_targets(g, src);
    let f = t.filter(p);
    query::lemma_filter_members(t, p);
    let chosen = |i: int|
        g.edges[i].valid_to == T_MAX && g.nodes[g.edges[i].src as int].name == src;
    assert forall|k: int| 0 <= k < r.len() implies is_stale_op(ops, #[trigger] r[k], ts) && r[k] is RetireEdge && r[k]->RetireEdge_src == src by {
        let x = f[k];
        assert(t.contains(x) && p(x));
        lemma_asserted(ops, src, x.0, x.1);
        let q = t.index_of(x);
        assert(chosen(at[q]));
        assert(recording::joined(g, at[q], src, x.0, x.1));
    }
    assert forall|i: int, dst: Seq<char>, kind: Seq<char>| #[trigger]
        recording::joined(g, i, src, dst, kind) && !is_asserted(
            ops,
            src,
            dst,
            kind,
        ) implies r.contains(OpV::RetireEdge { src, dst, kind, ts }) by {
        assert(chosen(i));
        let q = at.index_of(i);
        assert(t[q] == (dst, kind));
        assert(t.contains((dst, kind)));
        lemma_asserted(ops, src, dst, kind);
        assert(f.contains((dst, kind)));
        let k = f.index_of((dst, kind));
        assert(r[k] == (OpV::RetireEdge { src, dst, kind, ts }));
    }
}

/// The mutation retires an open edge that the snapshot does not assert.
spec fn is_stale_op(ops: Seq<OpV>, op: OpV, ts: Ts) -> bool {
    match op {
        OpV::RetireEdge { src, dst, kind, ts: t } => t == ts && !is_asserted(ops, src, dst, kind),
        _ => false,
    }
}

proof fn lemma_all_stale_edges(g: GraphV, ops: Seq<OpV>, srcs: Seq<Seq<char>>, ts: Ts)
    requires
        g.wf(),
    ensures
        ({
            let r = snapshot::all_stale_edges(g, ops, srcs, ts);
            &&& forall|k: int|
                0 <= k < r.len() ==> is_stale_op(ops, #[trigger] r[k], ts) && srcs.contains(
                    r[k]->RetireEdge_src,
                )
            &&& forall|i: int, src: Seq<char>, dst: Seq<char>, kind: Seq<char>| #[trigger]
                recording::joined(g, i, src, dst, kind) && srcs.contains(src) && !is_asserted(
                    ops,
                    src,
                    dst,
                    kind,
                ) ==> r.contains(OpV::RetireEdge { src, dst, kind, ts })
        }),
    decreases srcs.len(),
{
    if srcs.len() > 0 {
        let front = srcs.drop_last();
        let last = srcs.last();
        lemma_all_stale_edges(g, ops, front, ts);
        lemma_stale_edges(g, ops, last, ts);
        let a = snapshot::all_stale_edges(g, ops, front, ts);
        let b = snapshot::stale_edges(g, ops, last, ts);
        let r = snapshot::all_stale_edges(g, ops, srcs, ts);
        assert(srcs[srcs.len() - 1] == last);
        assert forall|k: int| 0 <= k < r.len() implies is_stale_op(ops, #[trigger] r[k], ts)
            && srcs.contains(r[k]->RetireEdge_src) by {
            if k < a.len() {
                assert(r[k] == a[k]);
                let s = a[k]->RetireEdge_src;
                assert(front.contains(s));
                assert(srcs[front.index_of(s)] == s);
            } else {
                assert(r[k] == b[k - a.len()]);
            }
        }
        assert forall|i: int, src: Seq<char>, dst: Seq<char>, kind: Seq<char>| #[trigger]
            recording::joined(g, i, src, dst, kind) && srcs.contains(src) && !is_asserted(
                ops,
                src,
                dst,
                kind,
            ) implies r.contains(OpV::RetireEdge { src, dst, kind, ts }) by {
            let op = OpV::RetireEdge { src, dst, kind, ts };
            if src == last {
                let k = b.index_of(op);
                assert(r[a.len() + k] == op);
            } else {
                let q = srcs.index_of(src);
                assert(front[q] == src);
                assert(front.contains(src));
                let k = a.index_of(op);
                assert(r[k] == op);
            }
        }
    }
}

/// Some retirement among them is of record `i`.
spec fn is_ended(g: GraphV, rs: Seq<OpV>, i: int) -> bool {
    exists|k: int|
        0 <= k < rs.len() && ({
            let op = #[trigger] rs[k];
            recording::joined(
                g,
                i,
                op->RetireEdge_src,
                op->RetireEdge_dst,
                op->RetireEdge_kind,
            )
        })
}

/// Retiring edges ends the records of theirs that are open.
proof fn lemma_retire_edges(g: GraphV, rs: Seq<OpV>, ts: Ts)
    requires
        g.wf(),
        history::one_open_record(g),
        ts < T_MAX,
        forall|k: int|
            0 <= k < rs.len() ==> (#[trigger] rs[k]) is RetireEdge && rs[k]->RetireEdge_ts == ts,
    ensures
        ({
            let h = g.apply_all(rs);
            &&& h.wf()
            &&& history::one_open_record(h)
            &&& h.edges.len() == g.edges.len()
            &&& h.nodes == g.nodes
            &&& h.kinds == g.kinds
            &&& h.origins == g.origins
            &&& h.types == g.types
            &&& forall|i: int|
                0 <= i < g.edges.len() ==> #[trigger] h.edges[i] == if is_ended(g, rs, i) {
                    Edge { valid_to: ts, ..g.edges[i] }
                } else {
                    g.edges[i]
                }
        }),
    decreases rs.len(),
{
    if rs.len() > 0 {
        let front = rs.drop_last();
        assert forall|k: int| 0 <= k < front.len() implies (#[trigger] front[k]) is RetireEdge
            && front[k]->RetireEdge_ts == ts by {
            assert(front[k] == rs[k]);
        }
        lemma_retire_edges(g, front, ts);
        let m = g.apply_all(front);
        let op = rs.last();
        assert(rs[rs.len() - 1] == op);
        let h = m.apply(op);
        let src = op->RetireEdge_src;
        let dst = op->RetireEdge_dst;
        let kind = op->RetireEdge_kind;
        recording::retiring_an_edge_ends_its_record(m, src, dst, kind, ts);
        history::history_is_append_only(m, op);
        history::relation_has_one_open_record(m, op);
        assert forall|i: int| 0 <= i < g.edges.len() implies #[trigger] h.edges[i] == if is_ended(g, rs, i) {
            Edge { valid_to: ts, ..g.edges[i] }
        } else {
            g.edges[i]
        } by {
            let was = is_ended(g, front, i);
            if was {
                let k = choose|k: int|
                    0 <= k < front.len() && ({
                        let op = #[trigger] front[k];
                        recording::joined(
                            g,
                            i,
                            op->RetireEdge_src,
                            op->RetireEdge_dst,
                            op->RetireEdge_kind,
                        )
                    });
                assert(rs[k] == front[k]);
            }
            if is_ended(g, rs, i) {
                let k = choose|k: int|
                    0 <= k < rs.len() && ({
                        let op = #[trigger] rs[k];
                        recording::joined(
                            g,
                            i,
                            op->RetireEdge_src,
                            op->RetireEdge_dst,
                            op->RetireEdge_kind,
                        )
                    });
                if k < front.len() {
                    assert(front[k] == rs[k]);
                }
            }
            assert(m.edges[i] == if was {
                Edge { valid_to: ts, ..g.edges[i] }
            } else {
                g.edges[i]
            });
            if !was {
                assert(recording::joined(m, i, src, dst, kind) == recording::joined(
                    g,
                    i,
                    src,
                    dst,
                    kind,
                ));
            }
        }
    }
}

/// Retiring nodes ends, then, those that stand and every open edge at one of
/// them, and leaves the rest as it was.
pub proof fn retiring_nodes_ends_them_and_their_edges(g: GraphV, names: Seq<Seq<char>>, ts: Ts)
    requires
        g.wf(),
    ensures
        ({
            let h = query::retire_all(g, names, ts);
            &&& h.wf()
            &&& h.nodes.len() == g.nodes.len()
            &&& h.edges.len() == g.edges.len()
            &&& h.kinds == g.kinds
            &&& h.types == g.types
            &&& h.origins == g.origins
            &&& forall|n: int|
                0 <= n < g.nodes.len() ==> #[trigger] h.nodes[n] == if names.contains(
                    g.nodes[n].name,
                ) {
                    ended_node(g.nodes[n], ts)
                } else {
                    g.nodes[n]
                }
            &&& forall|i: int|
                0 <= i < g.edges.len() ==> #[trigger] h.edges[i] == if g.edges[i].valid_to == T_MAX
                    && (names.contains(g.nodes[g.edges[i].src as int].name) || names.contains(
                    g.nodes[g.edges[i].dst as int].name,
                )) {
                    Edge { valid_to: ts, ..g.edges[i] }
                } else {
                    g.edges[i]
                }
        }),
    decreases names.len(),
{
    if names.len() > 0 {
        let front = names.drop_last();
        let last = names.last();
        retiring_nodes_ends_them_and_their_edges(g, front, ts);
        let m = query::retire_all(g, front, ts);
        let h = query::retire_all(g, names, ts);
        let op = OpV::RetireNode { name: last, ts };
        assert(h == m.apply(op));
        recording::retiring_a_node_ends_it_and_its_edges(m, last, ts);
        history::history_is_append_only(m, op);
        assert forall|x: Seq<char>| #[trigger] names.contains(x) == (front.contains(x) || x
            == last) by {
            if front.contains(x) {
                assert(names[front.index_of(x)] == x);
            }
            assert(names[names.len() - 1] == last);
            if names.contains(x) {
                let k = names.index_of(x);
                if k < front.len() {
                    assert(front[k] == x);
                }
            }
        }
        assert forall|n: int| 0 <= n < g.nodes.len() implies #[trigger] h.nodes[n]
            == if names.contains(g.nodes[n].name) {
            ended_node(g.nodes[n], ts)
        } else {
            g.nodes[n]
        } by {
            assert(m.nodes[n] == if front.contains(g.nodes[n].name) {
                ended_node(g.nodes[n], ts)
            } else {
                g.nodes[n]
            });
            let v = g.nodes[n].versions;
            if front.contains(g.nodes[n].name) && recording::stands(g.nodes[n]) {
                let w = m.nodes[n].versions;
                assert(w.last() == VersionV { retired_at: ts, ..v.last() });
                assert(w.update(w.len() - 1, VersionV { retired_at: ts, ..w.last() }) =~= w);
            }
        }
        assert forall|i: int| 0 <= i < g.edges.len() implies #[trigger] h.edges[i]
            == if g.edges[i].valid_to == T_MAX && (names.contains(
            g.nodes[g.edges[i].src as int].name,
        ) || names.contains(g.nodes[g.edges[i].dst as int].name)) {
            Edge { valid_to: ts, ..g.edges[i] }
        } else {
            g.edges[i]
        } by {
            let e = g.edges[i];
            assert(m.nodes[e.src as int].name == g.nodes[e.src as int].name);
            assert(m.nodes[e.dst as int].name == g.nodes[e.dst as int].name);
            assert(m.edges[i].src == e.src && m.edges[i].dst == e.dst);
        }
    }
}

/// Retiring the stale edges keeps the graph sound and its tables as they were.
pub(crate) proof fn lemma_stale_apply(g: GraphV, ops: Seq<OpV>, srcs: Seq<Seq<char>>, ts: Ts)
    requires
        g.wf(),
        history::one_open_record(g),
        ts < T_MAX,
    ensures
        ({
            let m = g.apply_all(snapshot::all_stale_edges(g, ops, srcs, ts));
            &&& m.wf()
            &&& m.kinds == g.kinds
        }),
{
    let rs = snapshot::all_stale_edges(g, ops, srcs, ts);
    lemma_all_stale_edges(g, ops, srcs, ts);
    assert forall|k: int| 0 <= k < rs.len() implies (#[trigger] rs[k]) is RetireEdge
        && rs[k]->RetireEdge_ts == ts by {
        assert(is_stale_op(ops, rs[k], ts));
    }
    lemma_retire_edges(g, rs, ts);
}

/// A node whose open version, if it has one, ends at `ts`.
pub open spec fn ended_node(n: NodeV, ts: Ts) -> NodeV {
    if recording::stands(n) {
        NodeV {
            versions: n.versions.update(
                n.versions.len() - 1,
                VersionV { retired_at: ts, ..n.versions.last() },
            ),
            ..n
        }
    } else {
        n
    }
}

/// A snapshot misses a node: it was observed, is in force at the time of the
/// snapshot, and the snapshot does not assert its name.
pub open spec fn is_missed(n: NodeV, names: Set<Seq<char>>, ts: Ts) -> bool {
    !n.placeholder && moments::in_force(n, ts) && !names.contains(n.name)
}

/// A complete snapshot ends what it does not confirm and nothing else. After
/// the mutations of a snapshot, reconciliation ends at its time each open edge
/// that leaves a node that they observe and that they do not assert, each
/// observed node in force then whose name is not asserted, and each open edge
/// at such a node. Every other node and edge stays as it was, and the names
/// that are reported are those of the nodes that were ended.
pub proof fn snapshot_ends_what_it_does_not_confirm(
    g: GraphV,
    ops: Seq<OpV>,
    names: Set<Seq<char>>,
    ts: Ts,
)
    requires
        g.wf(),
        history::one_open_record(g),
        ts < T_MAX,
    ensures
        ({
            let (h, stale) = snapshot::reconciled(g, ops, names, ts);
            &&& h.wf()
            &&& h.nodes.len() == g.nodes.len()
            &&& h.edges.len() == g.edges.len()
            &&& forall|n: int|
                0 <= n < g.nodes.len() ==> #[trigger] h.nodes[n] == if is_missed(
                    g.nodes[n],
                    names,
                    ts,
                ) {
                    ended_node(g.nodes[n], ts)
                } else {
                    g.nodes[n]
                }
            &&& forall|i: int|
                0 <= i < g.edges.len() ==> #[trigger] h.edges[i] == if g.edges[i].valid_to == T_MAX
                    && loses(g, ops, names, ts, i) {
                    Edge { valid_to: ts, ..g.edges[i] }
                } else {
                    g.edges[i]
                }
            &&& moments::lists(
                stale,
                g.nodes.len(),
                |n: int| is_missed(g.nodes[n], names, ts),
                |n: int| g.nodes[n].name,
            )
        }),
{
    let srcs = snapshot::observed(ops);
    let rs = snapshot::all_stale_edges(g, ops, srcs, ts);
    lemma_all_stale_edges(g, ops, srcs, ts);
    assert forall|k: int| 0 <= k < rs.len() implies (#[trigger] rs[k]) is RetireEdge
        && rs[k]->RetireEdge_ts == ts by {
        assert(is_stale_op(ops, rs[k], ts));
    }
    lemma_retire_edges(g, rs, ts);
    let m = g.apply_all(rs);
    let stale = query::named(m, query::stale(names, ts));
    moments::stale_lists_what_was_not_seen(m, names, ts);
    retiring_nodes_ends_them_and_their_edges(m, stale, ts);
    let h = query::retire_all(m, stale, ts);
    assert forall|n: int| 0 <= n < g.nodes.len() implies stale.contains(
        (#[trigger] g.nodes[n]).name,
    ) == is_missed(g.nodes[n], names, ts) by {
        assert(m.nodes[n] == g.nodes[n]);
    }
    assert forall|n: int| 0 <= n < g.nodes.len() implies #[trigger] h.nodes[n] == if is_missed(
        g.nodes[n],
        names,
        ts,
    ) {
        ended_node(g.nodes[n], ts)
    } else {
        g.nodes[n]
    } by {
        assert(m.nodes[n] == g.nodes[n]);
        assert(stale.contains(g.nodes[n].name) == is_missed(g.nodes[n], names, ts));
    }
    assert forall|i: int| 0 <= i < g.edges.len() implies #[trigger] h.edges[i]
        == if g.edges[i].valid_to == T_MAX && loses(g, ops, names, ts, i) {
        Edge { valid_to: ts, ..g.edges[i] }
    } else {
        g.edges[i]
    } by {
        let e = g.edges[i];
        let src = g.nodes[e.src as int].name;
        let dst = g.nodes[e.dst as int].name;
        let kind = g.kinds[e.kind_id as int];
        lemma_observed(ops, src);
        assert(m.edges[i] == if is_ended(g, rs, i) {
            Edge { valid_to: ts, ..e }
        } else {
            e
        });
        if e.valid_to == T_MAX {
            assert(recording::joined(g, i, src, dst, kind));
            if is_observed(ops, src) && !is_asserted(ops, src, dst, kind) {
                let op = OpV::RetireEdge { src, dst, kind, ts };
                assert(rs.contains(op));
                let k = rs.index_of(op);
                assert(recording::joined(
                    g,
                    i,
                    rs[k]->RetireEdge_src,
                    rs[k]->RetireEdge_dst,
                    rs[k]->RetireEdge_kind,
                ));
                assert(is_ended(g, rs, i));
            }
            if is_ended(g, rs, i) {
                let k = choose|k: int|
                    0 <= k < rs.len() && ({
                        let op = #[trigger] rs[k];
                        recording::joined(
                            g,
                            i,
                            op->RetireEdge_src,
                            op->RetireEdge_dst,
                            op->RetireEdge_kind,
                        )
                    });
                assert(is_stale_op(ops, rs[k], ts));
            }
            assert(stale.contains(g.nodes[e.src as int].name) == is_missed(
                g.nodes[e.src as int],
                names,
                ts,
            ));
            assert(stale.contains(g.nodes[e.dst as int].name) == is_missed(
                g.nodes[e.dst as int],
                names,
                ts,
            ));
        } else {
            assert(!is_ended(g, rs, i));
        }
    }
    assert(m.nodes == g.nodes);
    lemma_same_list(g, m, names, ts, stale);
}

/// Record `i` does not survive the snapshot: it leaves a node that the mutations
/// observe and they do not assert it, or the snapshot misses an end of it.
pub open spec fn loses(g: GraphV, ops: Seq<OpV>, names: Set<Seq<char>>, ts: Ts, i: int) -> bool {
    let src = g.nodes[g.edges[i].src as int];
    let dst = g.nodes[g.edges[i].dst as int];
    ||| is_observed(ops, src.name) && !is_asserted(
        ops,
        src.name,
        dst.name,
        g.kinds[g.edges[i].kind_id as int],
    )
    ||| is_missed(src, names, ts)
    ||| is_missed(dst, names, ts)
}

proof fn lemma_same_list(
    g: GraphV,
    m: GraphV,
    names: Set<Seq<char>>,
    ts: Ts,
    stale: Seq<Seq<char>>,
)
    requires
        m.nodes == g.nodes,
        moments::lists(
            stale,
            m.nodes.len(),
            |i: int|
                !m.nodes[i].placeholder && moments::in_force(m.nodes[i], ts) && !names.contains(
                    m.nodes[i].name,
                ),
            |i: int| m.nodes[i].name,
        ),
    ensures
        moments::lists(
            stale,
            g.nodes.len(),
            |n: int| is_missed(g.nodes[n], names, ts),
            |n: int| g.nodes[n].name,
        ),
{
    let a = |i: int|
        !m.nodes[i].placeholder && moments::in_force(m.nodes[i], ts) && !names.contains(
            m.nodes[i].name,
        );
    let x = |i: int| m.nodes[i].name;
    let b = |n: int| is_missed(g.nodes[n], names, ts);
    let y = |n: int| g.nodes[n].name;
    let at = choose|at: Seq<int>| #[trigger]
        moments::listed_at(at, stale, m.nodes.len(), a, x);
    assert forall|n: int| #[trigger] b(n) == a(n) by {}
    assert(moments::listed_at(at, stale, g.nodes.len(), b, y));
}

} // verus!
