//! Laws of deletion by provenance and of compaction, stated over labels: what
//! goes, what stays, and how it stays.

use crate::compact;
use crate::history;
use crate::interner;
use crate::json;
use crate::model::{Edge, GraphV, NodeV, OpV, T_MAX};
use crate::moments;
use crate::recording;
use crate::snapshot;
use vstd::prelude::*;

verus! {

/// Label `id` begins with the prefix. What has no label begins with none, and
/// without a prefix nothing does.
pub open spec fn begins(g: GraphV, id: u32, prefix: Option<Seq<char>>) -> bool {
    match prefix {
        Some(p) => id != 0 && p.len() <= g.origins[id as int].len() && g.origins[id as int].take(
            p.len() as int,
        ) == p,
        None => false,
    }
}

/// The node stands with a label that begins with the prefix.
pub open spec fn came_from(g: GraphV, n: NodeV, prefix: Option<Seq<char>>) -> bool {
    recording::stands(n) && begins(g, n.versions.last().origin_id, prefix)
}

/// The edge has a label that begins with the prefix, or an end that stands with
/// one.
pub open spec fn is_tainted(g: GraphV, e: Edge, prefix: Option<Seq<char>>) -> bool {
    begins(g, e.origin_id, prefix) || came_from(g, g.nodes[e.src as int], prefix) || came_from(
        g,
        g.nodes[e.dst as int],
        prefix,
    )
}

/// The graph that a rewritten log holds.
pub open spec fn rewritten(g: GraphV, prefix: Option<Seq<char>>) -> GraphV {
    snapshot::run(GraphV::empty(), compact::open_ops(g, prefix)).0
}

proof fn lemma_begins(g: GraphV, id: u32, prefix: Seq<char>)
    ensures
        compact::label_matches(g, id, prefix) == begins(g, id, Some(prefix)),
{
    let o = g.origins[id as int];
    if prefix.len() <= o.len() {
        assert(prefix.is_prefix_of(o) == (o.take(prefix.len() as int) == prefix)) by {
            if prefix.is_prefix_of(o) {
                assert(o.take(prefix.len() as int) =~= prefix);
            }
        }
    }
}

proof fn lemma_came_from(g: GraphV, n: NodeV, prefix: Option<Seq<char>>)
    ensures
        compact::purged_node(g, n, prefix) == came_from(g, n, prefix),
{
    match prefix {
        Some(p) => {
            if n.versions.len() > 0 {
                lemma_begins(g, n.versions.last().origin_id, p);
            }
        },
        None => {},
    }
}

proof fn lemma_tainted(g: GraphV, e: Edge, prefix: Option<Seq<char>>)
    ensures
        compact::purged_edge(g, e, prefix) == is_tainted(g, e, prefix),
{
    match prefix {
        Some(p) => {
            lemma_begins(g, e.origin_id, p);
        },
        None => {},
    }
    lemma_came_from(g, g.nodes[e.src as int], prefix);
    lemma_came_from(g, g.nodes[e.dst as int], prefix);
}

/// Where the mutations for edges come from.
proof fn lemma_edge_ops(g: GraphV, prefix: Option<Seq<char>>, k: nat) -> (at: Seq<int>)
    requires
        k <= g.edges.len(),
    ensures
        moments::listed_at(
            at,
            compact::edge_ops(g, prefix, k),
            k,
            |i: int| g.edges[i].valid_to == T_MAX && !is_tainted(g, g.edges[i], prefix),
            |i: int| compact::edge_op(g, g.edges[i]),
        ),
    decreases k,
{
    let chosen = |i: int| g.edges[i].valid_to == T_MAX && !is_tainted(g, g.edges[i], prefix);
    if k == 0 {
        Seq::empty()
    } else {
        let before = lemma_edge_ops(g, prefix, (k - 1) as nat);
        lemma_tainted(g, g.edges[k - 1], prefix);
        let at = if chosen(k - 1) {
            before.push(k - 1)
        } else {
            before
        };
        assert forall|i: int| 0 <= i < k && #[trigger] chosen(i) implies at.contains(i) by {
            if i < k - 1 {
                let j = before.index_of(i);
                assert(at[j] == i);
            } else {
                assert(at[at.len() - 1] == i);
            }
        }
        at
    }
}

/// Where the mutations for nodes come from.
proof fn lemma_node_ops(g: GraphV, prefix: Option<Seq<char>>, k: nat) -> (at: Seq<int>)
    requires
        k <= g.nodes.len(),
    ensures
        moments::listed_at(
            at,
            compact::node_ops(g, prefix, k),
            k,
            |i: int| recording::stands(g.nodes[i]) && !came_from(g, g.nodes[i], prefix),
            |i: int| compact::version_op(g, g.nodes[i], g.nodes[i].versions.last()),
        ),
    decreases k,
{
    let chosen = |i: int| recording::stands(g.nodes[i]) && !came_from(g, g.nodes[i], prefix);
    if k == 0 {
        Seq::empty()
    } else {
        let before = lemma_node_ops(g, prefix, (k - 1) as nat);
        lemma_came_from(g, g.nodes[k - 1], prefix);
        let at = if chosen(k - 1) {
            before.push(k - 1)
        } else {
            before
        };
        assert forall|i: int| 0 <= i < k && #[trigger] chosen(i) implies at.contains(i) by {
            if i < k - 1 {
                let j = before.index_of(i);
                assert(at[j] == i);
            } else {
                assert(at[at.len() - 1] == i);
            }
        }
        at
    }
}

/// The label of a fact, read as text.
proof fn lemma_label_read(g: GraphV, id: u32)
    requires
        g.wf(),
        id < g.origins.len(),
    ensures
        recording::label_text(compact::label_at(g, id)) == g.origins[id as int],
{
}

/// Rewriting a log spares every edge that its prefix does not reach: an open
/// edge whose label does not begin with the prefix, and neither of whose ends
/// stands with a label that does, is open in what stays, from and to the same
/// nodes, of the same kind, since the same time and with the same label.
pub proof fn rewriting_spares_other_edges(g: GraphV, prefix: Option<Seq<char>>, i: int) -> (j: int)
    requires
        g.wf(),
        history::one_open_record(g),
        snapshot::run(GraphV::empty(), compact::open_ops(g, prefix)).1,
        0 <= i < g.edges.len(),
        g.edges[i].valid_to == T_MAX,
        !is_tainted(g, g.edges[i], prefix),
    ensures
        recording::joined_since(
            rewritten(g, prefix),
            j,
            g.nodes[g.edges[i].src as int].name,
            g.nodes[g.edges[i].dst as int].name,
            g.kinds[g.edges[i].kind_id as int],
            g.edges[i].valid_from,
            g.origins[g.edges[i].origin_id as int],
        ),
{
    let e = g.edges[i];
    let src = g.nodes[e.src as int].name;
    let dst = g.nodes[e.dst as int].name;
    let kind = g.kinds[e.kind_id as int];
    let nodes = compact::node_ops(g, prefix, g.nodes.len());
    let edges = compact::edge_ops(g, prefix, g.edges.len());
    let ops = compact::open_ops(g, prefix);
    let from = lemma_node_ops(g, prefix, g.nodes.len());
    let at = lemma_edge_ops(g, prefix, g.edges.len());
    let chosen = |i: int| g.edges[i].valid_to == T_MAX && !is_tainted(g, g.edges[i], prefix);
    assert(chosen(i));
    let p = at.index_of(i);
    let k = nodes.len() + p;
    assert(ops[k] == edges[p]);
    assert forall|m: int| k < m < ops.len() implies recording::observes(#[trigger] ops[m]) by {
        assert(ops[m] == edges[m - nodes.len()]);
        assert(chosen(at[m - nodes.len()]));
    }
    assert forall|m: int| 0 <= m < k implies !recording::joins(#[trigger] ops[m], src, dst, kind) by {
        if m < nodes.len() {
            assert(ops[m] == nodes[m]);
            assert(0 <= from[m] < g.nodes.len());
        } else {
            let q = m - nodes.len();
            assert(ops[m] == edges[q]);
            assert(chosen(at[q]));
            let f = g.edges[at[q]];
            assert(at[q] < at[p]);
            if recording::joins(ops[m], src, dst, kind) {
                assert(g.ids[g.nodes[e.src as int].name] == e.src);
                assert(g.ids[g.nodes[e.dst as int].name] == e.dst);
                assert(g.ids[g.nodes[f.src as int].name] == f.src);
                assert(g.ids[g.nodes[f.dst as int].name] == f.dst);
                assert(e.kind_id < g.kinds.len() && f.kind_id < g.kinds.len());
                interner::lemma_number_of(g.kinds, e.kind_id as int);
                interner::lemma_number_of(g.kinds, f.kind_id as int);
                assert(e.key() == f.key());
            }
        }
    }
    lemma_label_read(g, e.origin_id);
    assert(!recording::are_joined(GraphV::empty(), src, dst, kind));
    recording::first_observation_counts(
        GraphV::empty(),
        ops,
        k,
        src,
        dst,
        kind,
        e.valid_from,
        compact::label_at(g, e.origin_id),
    )
}

/// Rewriting a log brings up nothing else: every edge in what stays is open and
/// is an open edge of the graph that the prefix does not reach, from and to the
/// same nodes, of the same kind, since the same time and with the same label.
pub proof fn rewriting_keeps_no_other_edge(g: GraphV, prefix: Option<Seq<char>>, j: int) -> (i: int)
    requires
        g.wf(),
        0 <= j < rewritten(g, prefix).edges.len(),
    ensures
        0 <= i < g.edges.len(),
        g.edges[i].valid_to == T_MAX,
        !is_tainted(g, g.edges[i], prefix),
        recording::joined_since(
            rewritten(g, prefix),
            j,
            g.nodes[g.edges[i].src as int].name,
            g.nodes[g.edges[i].dst as int].name,
            g.kinds[g.edges[i].kind_id as int],
            g.edges[i].valid_from,
            g.origins[g.edges[i].origin_id as int],
        ),
{
    let h = rewritten(g, prefix);
    let ops = compact::open_ops(g, prefix);
    let nodes = compact::node_ops(g, prefix, g.nodes.len());
    let edges = compact::edge_ops(g, prefix, g.edges.len());
    let from = lemma_node_ops(g, prefix, g.nodes.len());
    let at = lemma_edge_ops(g, prefix, g.edges.len());
    let chosen = |i: int| g.edges[i].valid_to == T_MAX && !is_tainted(g, g.edges[i], prefix);
    assert forall|m: int| 0 <= m < ops.len() implies recording::observes(#[trigger] ops[m]) by {
        if m < nodes.len() {
            assert(ops[m] == nodes[m]);
            assert(0 <= from[m] < g.nodes.len());
        } else {
            assert(ops[m] == edges[m - nodes.len()]);
            assert(chosen(at[m - nodes.len()]));
        }
    }
    lemma_all_open(ops, j);
    let e = h.edges[j];
    let src = h.nodes[e.src as int].name;
    let dst = h.nodes[e.dst as int].name;
    let kind = h.kinds[e.kind_id as int];
    assert(recording::joined(h, j, src, dst, kind));
    recording::what_is_joined_was_observed(GraphV::empty(), ops, j, src, dst, kind);
    let k = choose|k: int|
        0 <= k < ops.len() && recording::joins(#[trigger] ops[k], src, dst, kind)
            && recording::joins_since(ops[k], e.valid_from, h.origins[e.origin_id as int]);
    if k < nodes.len() {
        assert(ops[k] == nodes[k]);
        assert(0 <= from[k] < g.nodes.len());
    }
    let q = k - nodes.len();
    assert(ops[k] == edges[q]);
    assert(chosen(at[q]));
    let i = at[q];
    assert(g.edges[i].origin_id < g.origins.len());
    lemma_label_read(g, g.edges[i].origin_id);
    i
}

/// What only observations made is open.
proof fn lemma_all_open(ops: Seq<OpV>, j: int)
    requires
        forall|m: int| 0 <= m < ops.len() ==> recording::observes(#[trigger] ops[m]),
        0 <= j < snapshot::run(GraphV::empty(), ops).0.edges.len(),
    ensures
        snapshot::run(GraphV::empty(), ops).0.edges[j].valid_to == T_MAX,
    decreases ops.len(),
{
    if ops.len() > 0 {
        let front = ops.drop_last();
        assert forall|m: int| 0 <= m < front.len() implies recording::observes(
            #[trigger] front[m],
        ) by {
            assert(front[m] == ops[m]);
        }
        let (a, ok) = snapshot::run(GraphV::empty(), front);
        history::running_only_adds(GraphV::empty(), front);
        assert(recording::observes(ops[ops.len() - 1]));
        if j < a.edges.len() {
            lemma_all_open(front, j);
            if ok && a.accepts(ops.last()) {
                recording::lemma_observation_edges(a, ops.last());
                assert(a.apply(ops.last()).edges[j] == a.edges[j]);
            }
        } else {
            match ops.last() {
                OpV::ObserveEdge { src, dst, kind, ts, origin } => {
                    recording::observing_an_edge_joins_its_ends(a, src, dst, kind, ts, origin);
                },
                _ => {
                    recording::lemma_observation_edges(a, ops.last());
                },
            }
        }
    }
}

/// Rewriting a log spares every node that its prefix does not reach: a node that
/// stands with a label that does not begin with the prefix stands in what stays,
/// as observed or mentioned as it was, of the same type, since the same time and
/// with the same label. Its properties are the document that its text holds.
pub proof fn rewriting_spares_other_nodes(g: GraphV, prefix: Option<Seq<char>>, n: int) -> (m: int)
    requires
        g.wf(),
        snapshot::run(GraphV::empty(), compact::open_ops(g, prefix)).1,
        0 <= n < g.nodes.len(),
        recording::stands(g.nodes[n]),
        !came_from(g, g.nodes[n], prefix),
    ensures
        ({
            let h = rewritten(g, prefix);
            let v = g.nodes[n].versions.last();
            let w = h.nodes[m].versions.last();
            &&& recording::called(h, m, g.nodes[n].name)
            &&& h.nodes[m].placeholder == g.nodes[n].placeholder
            &&& h.types[h.nodes[m].type_id as int] == g.types[g.nodes[n].type_id as int]
            &&& h.nodes[m].versions.len() == 1
            &&& w.observed_at == v.observed_at
            &&& w.retired_at == T_MAX
            &&& h.origins[w.origin_id as int] == g.origins[v.origin_id as int]
            &&& !g.nodes[n].placeholder ==> (json::json_parse(v.props) matches Ok(d) ==> w.props
                == json::canonical_text(d))
            &&& g.nodes[n].placeholder ==> w.props == "null"@
        }),
{
    let node = g.nodes[n];
    let name = node.name;
    let v = node.versions.last();
    let empty = GraphV::empty();
    let nodes = compact::node_ops(g, prefix, g.nodes.len());
    let edges = compact::edge_ops(g, prefix, g.edges.len());
    let ops = compact::open_ops(g, prefix);
    let from = lemma_node_ops(g, prefix, g.nodes.len());
    let at = lemma_edge_ops(g, prefix, g.edges.len());
    let picked = |i: int| g.edges[i].valid_to == T_MAX && !is_tainted(g, g.edges[i], prefix);
    let chosen = |i: int| recording::stands(g.nodes[i]) && !came_from(g, g.nodes[i], prefix);
    assert(chosen(n));
    let k = from.index_of(n);
    assert(ops[k] == nodes[k]);
    let ty = g.types[node.type_id as int];
    assert forall|j: int| 0 <= j < ops.len() && j != k implies !recording::is_about(
        #[trigger] ops[j],
        name,
    ) && (j < k ==> !recording::names(ops[j], name)) by {
        if j < nodes.len() {
            assert(ops[j] == nodes[j]);
            assert(chosen(from[j]));
            assert(g.ids[g.nodes[from[j]].name] == from[j]);
            assert(g.ids[g.nodes[n].name] == n);
            if j < k {
                assert(from[j] < from[k]);
            } else {
                assert(from[k] < from[j]);
            }
        } else {
            assert(ops[j] == edges[j - nodes.len()]);
            assert(picked(at[j - nodes.len()]));
        }
    }
    let before = ops.take(k);
    let (a, ok) = snapshot::run(empty, before);
    recording::lemma_run_prefix(empty, ops, k);
    recording::lemma_run_prefix(empty, ops, k + 1);
    history::running_only_adds(empty, before);
    assert forall|i: int| !recording::called(a, i, name) by {
        if recording::called(a, i, name) {
            recording::what_is_called_was_named(empty, before, i);
            let j = choose|j: int|
                0 <= j < before.len() && recording::names(#[trigger] before[j], name);
            assert(before[j] == ops[j]);
        }
    }
    assert(g.nodes[n].versions[node.versions.len() - 1].origin_id < g.origins.len());
    lemma_label_read(g, v.origin_id);
    let label = compact::label_at(g, v.origin_id);
    let m = if node.placeholder {
        recording::mentioning_a_node_makes_it_stand(a, name, ty, v.observed_at, label)
    } else {
        recording::observing_a_node_records_its_properties(
            a,
            name,
            ty,
            compact::props_document(v.props),
            v.observed_at,
            label,
        )
    };
    let next = ops.take(k + 1);
    assert(next.drop_last() =~= before);
    assert(next.last() == ops[k]);
    let b = snapshot::run(empty, next).0;
    assert(recording::called(b, m, name));
    assert(m == a.nodes.len());
    recording::node_stays_as_it_was_left(empty, ops, k + 1, m);
    let h = rewritten(g, prefix);
    assert(b.nodes[m].type_id < b.types.len());
    assert(b.nodes[m].versions[0].origin_id < b.origins.len());
    m
}

/// Rewriting a log brings up no other node: every node in what stays has the
/// name of a node of the graph that does not stand with a label that begins with
/// the prefix.
pub proof fn rewriting_keeps_no_other_node(g: GraphV, prefix: Option<Seq<char>>, m: int) -> (n: int)
    requires
        g.wf(),
        0 <= m < rewritten(g, prefix).nodes.len(),
    ensures
        recording::called(g, n, rewritten(g, prefix).nodes[m].name),
        !came_from(g, g.nodes[n], prefix),
{
    let h = rewritten(g, prefix);
    let name = h.nodes[m].name;
    let ops = compact::open_ops(g, prefix);
    let nodes = compact::node_ops(g, prefix, g.nodes.len());
    let edges = compact::edge_ops(g, prefix, g.edges.len());
    let from = lemma_node_ops(g, prefix, g.nodes.len());
    let at = lemma_edge_ops(g, prefix, g.edges.len());
    let picked = |i: int| g.edges[i].valid_to == T_MAX && !is_tainted(g, g.edges[i], prefix);
    let chosen = |i: int| recording::stands(g.nodes[i]) && !came_from(g, g.nodes[i], prefix);
    recording::what_is_called_was_named(GraphV::empty(), ops, m);
    let k = choose|k: int| 0 <= k < ops.len() && recording::names(#[trigger] ops[k], name);
    if k < nodes.len() {
        assert(ops[k] == nodes[k]);
        assert(chosen(from[k]));
        from[k]
    } else {
        let q = k - nodes.len();
        assert(ops[k] == edges[q]);
        assert(picked(at[q]));
        let e = g.edges[at[q]];
        if g.nodes[e.src as int].name == name {
            e.src as int
        } else {
            e.dst as int
        }
    }
}

/// What a deletion reports is what it took: the nodes that stand with a label
/// that begins with the prefix, and the open edges that it reaches.
pub proof fn purge_reports_what_it_took(g: GraphV, prefix: Seq<char>)
    ensures
        moments::counts(
            compact::purged_nodes(g, prefix, g.nodes.len()),
            g.nodes.len(),
            |i: int| came_from(g, g.nodes[i], Some(prefix)),
        ),
        moments::counts(
            compact::purged_edges(g, prefix, g.edges.len()),
            g.edges.len(),
            |i: int| g.edges[i].valid_to == T_MAX && is_tainted(g, g.edges[i], Some(prefix)),
        ),
{
    let a = lemma_count_nodes(g, prefix, g.nodes.len());
    let b = lemma_count_edges(g, prefix, g.edges.len());
}

proof fn lemma_count_nodes(g: GraphV, prefix: Seq<char>, k: nat) -> (at: Seq<int>)
    ensures
        at.len() == compact::purged_nodes(g, prefix, k),
        moments::counted_at(at, k, |i: int| came_from(g, g.nodes[i], Some(prefix))),
    decreases k,
{
    let chosen = |i: int| came_from(g, g.nodes[i], Some(prefix));
    if k == 0 {
        Seq::empty()
    } else {
        let before = lemma_count_nodes(g, prefix, (k - 1) as nat);
        lemma_came_from(g, g.nodes[k - 1], Some(prefix));
        let at = if chosen(k - 1) {
            before.push(k - 1)
        } else {
            before
        };
        assert forall|i: int| 0 <= i < k && #[trigger] chosen(i) implies at.contains(i) by {
            if i < k - 1 {
                let j = before.index_of(i);
                assert(at[j] == i);
            } else {
                assert(at[at.len() - 1] == i);
            }
        }
        at
    }
}

proof fn lemma_count_edges(g: GraphV, prefix: Seq<char>, k: nat) -> (at: Seq<int>)
    ensures
        at.len() == compact::purged_edges(g, prefix, k),
        moments::counted_at(
            at,
            k,
            |i: int| g.edges[i].valid_to == T_MAX && is_tainted(g, g.edges[i], Some(prefix)),
        ),
    decreases k,
{
    let chosen = |i: int|
        g.edges[i].valid_to == T_MAX && is_tainted(g, g.edges[i], Some(prefix));
    if k == 0 {
        Seq::empty()
    } else {
        let before = lemma_count_edges(g, prefix, (k - 1) as nat);
        lemma_tainted(g, g.edges[k - 1], Some(prefix));
        let at = if chosen(k - 1) {
            before.push(k - 1)
        } else {
            before
        };
        assert forall|i: int| 0 <= i < k && #[trigger] chosen(i) implies at.contains(i) by {
            if i < k - 1 {
                let j = before.index_of(i);
                assert(at[j] == i);
            } else {
                assert(at[at.len() - 1] == i);
            }
        }
        at
    }
}

} // verus!
