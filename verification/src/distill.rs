//! What a rewritten log keeps: all that is open, and nothing else. So does a
//! neighbourhood keep all that is near.

use crate::backend;
use crate::compact;
use crate::fnv;
use crate::history;
use crate::interner;
use crate::json;
use crate::model;
use crate::model::{Edge, GraphV, NodeId, NodeV, OpV, Ts, VersionV, T_MAX};
use crate::snapshot;
use vstd::prelude::*;

verus! {

/// What an open version says of its node.
pub struct NodeFactV {
    pub name: Seq<char>,
    pub node_type: Seq<char>,
    pub placeholder: bool,
    pub since: Ts,
    pub props: Seq<char>,
    pub label: Option<Seq<char>>,
}

/// What an open record says of its relation.
pub struct EdgeFactV {
    pub src: Seq<char>,
    pub dst: Seq<char>,
    pub kind: Seq<char>,
    pub since: Ts,
    pub label: Option<Seq<char>>,
}

pub open spec fn node_fact(g: GraphV, n: NodeV, v: VersionV) -> NodeFactV {
    NodeFactV {
        name: n.name,
        node_type: g.types[n.type_id as int],
        placeholder: n.placeholder,
        since: v.observed_at,
        props: v.props,
        label: compact::label_at(g, v.origin_id),
    }
}

pub open spec fn edge_fact(g: GraphV, e: Edge) -> EdgeFactV {
    EdgeFactV {
        src: g.nodes[e.src as int].name,
        dst: g.nodes[e.dst as int].name,
        kind: g.kinds[e.kind_id as int],
        since: e.valid_from,
        label: compact::label_at(g, e.origin_id),
    }
}

/// What the first `k` nodes have open, those that deletion takes left out.
pub open spec fn node_facts(g: GraphV, prefix: Option<Seq<char>>, k: nat) -> Seq<NodeFactV>
    decreases k,
{
    if k == 0 {
        Seq::empty()
    } else {
        let before = node_facts(g, prefix, (k - 1) as nat);
        let n = g.nodes[k - 1];
        match model::open_version(n.versions) {
            Some(v) => if compact::purged_node(g, n, prefix) {
                before
            } else {
                before.push(node_fact(g, n, v))
            },
            None => before,
        }
    }
}

/// Which of the first `k` records of edges are open, those that deletion takes
/// left out.
pub open spec fn edge_facts(g: GraphV, prefix: Option<Seq<char>>, k: nat) -> Seq<EdgeFactV>
    decreases k,
{
    if k == 0 {
        Seq::empty()
    } else {
        let before = edge_facts(g, prefix, (k - 1) as nat);
        let e = g.edges[k - 1];
        if e.valid_to == T_MAX && !compact::purged_edge(g, e, prefix) {
            before.push(edge_fact(g, e))
        } else {
            before
        }
    }
}

/// A graph in which exactly the facts given are open, in that order, and that
/// holds nothing else.
pub open spec fn states(h: GraphV, nodes: Seq<NodeFactV>, edges: Seq<EdgeFactV>) -> bool {
    &&& h.nodes.len() == nodes.len()
    &&& forall|i: int|
        0 <= i < nodes.len() ==> (model::open_version((#[trigger] h.nodes[i]).versions) matches Some(
            v,
        ) && node_fact(h, h.nodes[i], v) == nodes[i] && h.nodes[i].versions.len() == 1)
    &&& h.edges.len() == edges.len()
    &&& forall|i: int|
        0 <= i < edges.len() ==> (#[trigger] h.edges[i]).valid_to == T_MAX && edge_fact(
            h,
            h.edges[i],
        ) == edges[i]
}

/// Stored properties read back as they were written, and the open edges that
/// are kept join nodes that are open.
pub open spec fn rewritable(g: GraphV, prefix: Option<Seq<char>>) -> bool {
    &&& forall|i: int|
        0 <= i < g.nodes.len() ==> (model::open_version((#[trigger] g.nodes[i]).versions) matches Some(
            v,
        ) ==> v.props == (if g.nodes[i].placeholder {
            seq!['n', 'u', 'l', 'l']
        } else {
            json::canonical_text(compact::props_document(v.props))
        }))
    &&& forall|i: int|
        0 <= i < g.edges.len() && (#[trigger] g.edges[i]).valid_to == T_MAX && !compact::purged_edge(
            g,
            g.edges[i],
            prefix,
        ) ==> model::open_version(g.nodes[g.edges[i].src as int].versions) is Some
            && model::open_version(g.nodes[g.edges[i].dst as int].versions) is Some
}

/// A fact about a node is one about a node of the graph.
proof fn lemma_node_facts(g: GraphV, prefix: Option<Seq<char>>, k: nat)
    requires
        g.wf(),
        k <= g.nodes.len(),
    ensures
        forall|m: int|
            0 <= m < node_facts(g, prefix, k).len() ==> g.ids.contains_key(
                (#[trigger] node_facts(g, prefix, k)[m]).name,
            ) && g.ids[node_facts(g, prefix, k)[m].name] < k,
        forall|i: int|
            0 <= i < k && model::open_version((#[trigger] g.nodes[i]).versions) is Some
                && !compact::purged_node(g, g.nodes[i], prefix) ==> stands_for(
                node_facts(g, prefix, k),
                g.nodes[i].name,
            ),
    decreases k,
{
    if k > 0 {
        lemma_node_facts(g, prefix, (k - 1) as nat);
        let before = node_facts(g, prefix, (k - 1) as nat);
        let all = node_facts(g, prefix, k);
        let n = g.nodes[k - 1];
        assert(g.ids[n.name] == k - 1);
        assert forall|i: int|
            0 <= i < k && model::open_version((#[trigger] g.nodes[i]).versions) is Some
                && !compact::purged_node(g, g.nodes[i], prefix) implies stands_for(
            all,
            g.nodes[i].name,
        ) by {
            if i < k - 1 {
                assert(stands_for(before, g.nodes[i].name));
                let m = choose|m: int|
                    0 <= m < before.len() && (#[trigger] before[m]).name == g.nodes[i].name;
                assert(all[m].name == g.nodes[i].name);
            } else {
                assert(all[all.len() - 1].name == n.name);
            }
        }
    }
}

spec fn stands_for(facts: Seq<NodeFactV>, name: Seq<char>) -> bool {
    exists|m: int| 0 <= m < facts.len() && (#[trigger] facts[m]).name == name
}

/// The label of a fact gets a number that leads back to it.
proof fn lemma_label(g: GraphV, id: u32, table: Seq<Seq<char>>)
    requires
        g.wf(),
        id < g.origins.len(),
        table.no_duplicates(),
        table.len() + 2 <= u32::MAX,
        table.len() > 0 ==> table[0] == Seq::<char>::empty(),
    ensures
        ({
            let t = model::origins_with(table, compact::label_at(g, id));
            let n = model::origin_number(t, compact::label_at(g, id));
            &&& n < t.len()
            &&& table.is_prefix_of(t)
            &&& (n == 0) == (id == 0)
            &&& id != 0 ==> t[n as int] == g.origins[id as int]
        }),
{
    let base = interner::interned(table, Seq::empty());
    history::lemma_interned(table, Seq::empty());
    assert(base[0] == Seq::<char>::empty());
    if id != 0 {
        let o = g.origins[id as int];
        assert(g.origins[0] == Seq::<char>::empty());
        assert(o != Seq::<char>::empty());
        assert(o.len() > 0) by {
            if o.len() == 0 {
                assert(o =~= Seq::<char>::empty());
            }
        }
        history::lemma_interned(base, o);
    }
}

proof fn lemma_nodes_kept(g: GraphV, prefix: Option<Seq<char>>, k: nat)
    requires
        g.wf(),
        rewritable(g, prefix),
        k <= g.nodes.len(),
        snapshot::run(GraphV::empty(), compact::node_ops(g, prefix, k)).1,
    ensures
        ({
            let h = snapshot::run(GraphV::empty(), compact::node_ops(g, prefix, k)).0;
            &&& states(h, node_facts(g, prefix, k), Seq::empty())
            &&& h.open =~= Map::empty()
            &&& h.kinds =~= Seq::empty()
        }),
    decreases k,
{
    let e = GraphV::empty();
    history::running_only_adds(e, compact::node_ops(g, prefix, k));
    if k > 0 {
        let before = compact::node_ops(g, prefix, (k - 1) as nat);
        let facts = node_facts(g, prefix, (k - 1) as nat);
        let all = node_facts(g, prefix, k);
        let n = g.nodes[k - 1];
        match model::open_version(n.versions) {
            Some(v) => {
                if compact::purged_node(g, n, prefix) {
                    lemma_nodes_kept(g, prefix, (k - 1) as nat);
                } else {
                    let op = compact::version_op(g, n, v);
                    assert(before.push(op).drop_last() =~= before);
                    lemma_nodes_kept(g, prefix, (k - 1) as nat);
                    history::running_only_adds(e, before);
                    let m = snapshot::run(e, before).0;
                    lemma_node_facts(g, prefix, (k - 1) as nat);
                    assert(g.ids[n.name] == k - 1);
                    assert(!m.ids.contains_key(n.name)) by {
                        if m.ids.contains_key(n.name) {
                            let i = m.ids[n.name] as int;
                            assert(facts[i] == node_fact(
                                m,
                                m.nodes[i],
                                model::open_version(m.nodes[i].versions)->0,
                            ));
                            assert(g.ids[facts[i].name] < k - 1);
                        }
                    }
                    assert(n.versions[n.versions.len() - 1].origin_id < g.origins.len());
                    assert(n.type_id < g.types.len());
                    lemma_node_joins(g, n, v, m, facts);
                    assert(fact_read_back(g, n, v) == node_fact(g, n, v));
                }
            },
            None => {
                lemma_nodes_kept(g, prefix, (k - 1) as nat);
            },
        }
    }
}

/// A fact about a relation is one about an open record of the graph.
proof fn lemma_edge_facts(g: GraphV, prefix: Option<Seq<char>>, k: nat)
    requires
        k <= g.edges.len(),
    ensures
        forall|m: int|
            0 <= m < edge_facts(g, prefix, k).len() ==> is_fact_of(
                g,
                #[trigger] edge_facts(g, prefix, k)[m],
                k as int,
            ),
    decreases k,
{
    if k > 0 {
        lemma_edge_facts(g, prefix, (k - 1) as nat);
        let before = edge_facts(g, prefix, (k - 1) as nat);
        let all = edge_facts(g, prefix, k);
        assert forall|m: int| 0 <= m < all.len() implies is_fact_of(
            g,
            #[trigger] all[m],
            k as int,
        ) by {
            if m < before.len() {
                assert(all[m] == before[m]);
                let i = choose|i: int|
                    0 <= i < k - 1 && (#[trigger] g.edges[i]).valid_to == T_MAX && edge_fact(
                        g,
                        g.edges[i],
                    ) == before[m];
                assert(edge_fact(g, g.edges[i]) == all[m]);
            } else {
                assert(edge_fact(g, g.edges[k - 1]) == all[m]);
            }
        }
    }
}

spec fn is_fact_of(g: GraphV, f: EdgeFactV, k: int) -> bool {
    exists|i: int|
        0 <= i < k && (#[trigger] g.edges[i]).valid_to == T_MAX && edge_fact(g, g.edges[i]) == f
}

/// An observed edge whose ends are present, and whose relation is not open,
/// joins the graph and changes nothing else that the graph states.
proof fn lemma_edge_joins(
    g: GraphV,
    i: int,
    m: GraphV,
    nodes: Seq<NodeFactV>,
    edges: Seq<EdgeFactV>,
)
    requires
        g.wf(),
        0 <= i < g.edges.len(),
        m.wf(),
        m.room(1),
        states(m, nodes, edges),
        stands_for(nodes, g.nodes[g.edges[i].src as int].name),
        stands_for(nodes, g.nodes[g.edges[i].dst as int].name),
        forall|j: int|
            0 <= j < edges.len() ==> !same_relation(
                #[trigger] edges[j],
                edge_fact(g, g.edges[i]),
            ),
    ensures
        states(m.apply(compact::edge_op(g, g.edges[i])), nodes, edges.push(edge_fact(g, g.edges[i]))),
{
    let e = g.edges[i];
    let f = edge_fact(g, e);
    let op = compact::edge_op(g, e);
    let h = m.apply(op);
    assert(e.src < g.nodes.len() && e.dst < g.nodes.len() && e.kind_id < g.kinds.len());
    assert(m.ids.contains_key(f.src)) by {
        let a = choose|a: int| 0 <= a < nodes.len() && (#[trigger] nodes[a]).name == f.src;
        assert(m.nodes[a].name == f.src);
    }
    assert(m.ids.contains_key(f.dst)) by {
        let a = choose|a: int| 0 <= a < nodes.len() && (#[trigger] nodes[a]).name == f.dst;
        assert(m.nodes[a].name == f.dst);
    }
    history::lemma_interned(m.kinds, f.kind);
    lemma_label(g, e.origin_id, m.origins);
    history::history_is_append_only(m, op);
    let key = (m.ids[f.src], m.ids[f.dst], interner::number_of(h.kinds, f.kind));
    assert(!m.open.contains_key(key)) by {
        if m.open.contains_key(key) {
            let j = m.open[key] as int;
            let x = m.edges[j];
            assert(edges[j] == edge_fact(m, x));
            assert(x.kind_id < m.kinds.len());
            assert(m.kinds[x.kind_id as int] == h.kinds[x.kind_id as int]);
            assert(same_relation(edges[j], f));
        }
    }
    let all = edges.push(f);
    assert(h.nodes == m.nodes);
    assert forall|j: int| 0 <= j < all.len() implies (#[trigger] h.edges[j]).valid_to == T_MAX
        && edge_fact(h, h.edges[j]) == all[j] by {
        if j < edges.len() {
            let x = m.edges[j];
            assert(h.edges[j] == x);
            assert(x.origin_id < m.origins.len() && x.kind_id < m.kinds.len());
            assert(m.origins[x.origin_id as int] == h.origins[x.origin_id as int]);
            assert(m.kinds[x.kind_id as int] == h.kinds[x.kind_id as int]);
            assert(edge_fact(m, x) == edges[j]);
        }
    }
    assert forall|j: int| 0 <= j < nodes.len() implies (model::open_version(
        (#[trigger] h.nodes[j]).versions,
    ) matches Some(v) && node_fact(h, h.nodes[j], v) == nodes[j] && h.nodes[j].versions.len()
        == 1) by {
        let v = model::open_version(m.nodes[j].versions)->0;
        assert(m.nodes[j].versions[0] == v);
        assert(v.origin_id < m.origins.len());
        assert(m.origins[v.origin_id as int] == h.origins[v.origin_id as int]);
        assert(node_fact(m, m.nodes[j], v) == nodes[j]);
    }
}

/// Two facts about one relation.
pub open spec fn same_relation(a: EdgeFactV, b: EdgeFactV) -> bool {
    a.src == b.src && a.dst == b.dst && a.kind == b.kind
}

proof fn lemma_edges_kept(g: GraphV, prefix: Option<Seq<char>>, k: nat)
    requires
        g.wf(),
        history::one_open_record(g),
        rewritable(g, prefix),
        k <= g.edges.len(),
        snapshot::run(
            GraphV::empty(),
            compact::node_ops(g, prefix, g.nodes.len()) + compact::edge_ops(g, prefix, k),
        ).1,
    ensures
        ({
            let h = snapshot::run(
                GraphV::empty(),
                compact::node_ops(g, prefix, g.nodes.len()) + compact::edge_ops(g, prefix, k),
            ).0;
            states(h, node_facts(g, prefix, g.nodes.len()), edge_facts(g, prefix, k))
        }),
    decreases k,
{
    let a = compact::node_ops(g, prefix, g.nodes.len());
    let nodes = node_facts(g, prefix, g.nodes.len());
    if k == 0 {
        assert(a + compact::edge_ops(g, prefix, 0) =~= a);
        lemma_nodes_kept(g, prefix, g.nodes.len());
        assert(edge_facts(g, prefix, 0) =~= Seq::empty());
    } else {
        let before = compact::edge_ops(g, prefix, (k - 1) as nat);
        let facts = edge_facts(g, prefix, (k - 1) as nat);
        let e = g.edges[k - 1];
        if e.valid_to == T_MAX && !compact::purged_edge(g, e, prefix) {
            let op = compact::edge_op(g, e);
            assert((a + before.push(op)).drop_last() =~= a + before);
            assert((a + before.push(op)).last() == op);
            lemma_edges_kept(g, prefix, (k - 1) as nat);
            let m = snapshot::run(GraphV::empty(), a + before).0;
            history::running_only_adds(GraphV::empty(), a + before);
            lemma_node_facts(g, prefix, g.nodes.len());
            lemma_edge_facts(g, prefix, (k - 1) as nat);
            assert(e.src < g.nodes.len() && e.dst < g.nodes.len());
            assert(!compact::purged_node(g, g.nodes[e.src as int], prefix));
            assert(!compact::purged_node(g, g.nodes[e.dst as int], prefix));
            let f = edge_fact(g, e);
            assert forall|j: int| 0 <= j < facts.len() implies !same_relation(
                #[trigger] facts[j],
                f,
            ) by {
                if same_relation(facts[j], f) {
                    let i = choose|i: int|
                        0 <= i < k - 1 && (#[trigger] g.edges[i]).valid_to == T_MAX && edge_fact(
                            g,
                            g.edges[i],
                        ) == facts[j];
                    let x = g.edges[i];
                    assert(x.src < g.nodes.len() && x.dst < g.nodes.len());
                    assert(g.ids[g.nodes[x.src as int].name] == x.src);
                    assert(g.ids[g.nodes[x.dst as int].name] == x.dst);
                    assert(g.ids[g.nodes[e.src as int].name] == e.src);
                    assert(g.ids[g.nodes[e.dst as int].name] == e.dst);
                    interner::lemma_number_of(g.kinds, x.kind_id as int);
                    interner::lemma_number_of(g.kinds, e.kind_id as int);
                    assert(x.key() == e.key());
                    assert(g.open[x.key()] == i);
                    assert(g.open[e.key()] == k - 1);
                }
            }
            lemma_edge_joins(g, k - 1, m, nodes, facts);
        } else {
            lemma_edges_kept(g, prefix, (k - 1) as nat);
        }
    }
}

/// The graph that a rewritten log replays to states what was open, each fact
/// with the time since when and the label it has, and nothing else. With a
/// prefix, what deletion takes is left out; without one, history is all that
/// is dropped.
pub proof fn rewriting_keeps_what_is_open(g: GraphV, prefix: Option<Seq<char>>)
    requires
        g.wf(),
        history::one_open_record(g),
        rewritable(g, prefix),
        snapshot::run(GraphV::empty(), compact::open_ops(g, prefix)).1,
    ensures
        states(
            snapshot::run(GraphV::empty(), compact::open_ops(g, prefix)).0,
            node_facts(g, prefix, g.nodes.len()),
            edge_facts(g, prefix, g.edges.len()),
        ),
{
    lemma_edges_kept(g, prefix, g.edges.len());
}

// ---------------------------------------------------------------------------
// Neighbourhoods
// ---------------------------------------------------------------------------

/// What a version says of its node once its properties were read from the
/// stored text and written again.
pub open spec fn fact_read_back(g: GraphV, n: NodeV, v: VersionV) -> NodeFactV {
    NodeFactV {
        props: if n.placeholder {
            seq!['n', 'u', 'l', 'l']
        } else {
            json::canonical_text(compact::props_document(v.props))
        },
        ..node_fact(g, n, v)
    }
}

/// What those of the first `k` nodes that are members are at `t`.
pub open spec fn member_node_facts(g: GraphV, m: Set<NodeId>, t: Ts, k: nat) -> Seq<NodeFactV>
    decreases k,
{
    if k == 0 {
        Seq::empty()
    } else {
        let before = member_node_facts(g, m, t, (k - 1) as nat);
        let n = g.nodes[k - 1];
        match model::version_at(n.versions, t) {
            Some(v) => if m.contains((k - 1) as u32) {
                before.push(fact_read_back(g, n, v))
            } else {
                before
            },
            None => before,
        }
    }
}

/// Whether a relation is among the facts.
pub open spec fn related(facts: Seq<EdgeFactV>, f: EdgeFactV) -> bool {
    exists|j: int| 0 <= j < facts.len() && same_relation(#[trigger] facts[j], f)
}

/// Which of the first `k` records hold at `t` between members. A relation that
/// several records hold at once is there as the first of them.
pub open spec fn member_edge_facts(g: GraphV, m: Set<NodeId>, t: Ts, k: nat) -> Seq<EdgeFactV>
    decreases k,
{
    if k == 0 {
        Seq::empty()
    } else {
        let before = member_edge_facts(g, m, t, (k - 1) as nat);
        let e = g.edges[k - 1];
        let f = edge_fact(g, e);
        if e.holds_at(t) && m.contains(e.src) && m.contains(e.dst) && !related(before, f) {
            before.push(f)
        } else {
            before
        }
    }
}

proof fn lemma_member_facts(g: GraphV, m: Set<NodeId>, t: Ts, k: nat)
    requires
        g.wf(),
        k <= g.nodes.len(),
    ensures
        forall|j: int|
            0 <= j < member_node_facts(g, m, t, k).len() ==> g.ids.contains_key(
                (#[trigger] member_node_facts(g, m, t, k)[j]).name,
            ) && g.ids[member_node_facts(g, m, t, k)[j].name] < k,
        forall|i: int|
            0 <= i < k && (#[trigger] g.nodes[i]).alive_at(t) && m.contains(i as u32) ==> stands_for(
                member_node_facts(g, m, t, k),
                g.nodes[i].name,
            ),
    decreases k,
{
    if k > 0 {
        lemma_member_facts(g, m, t, (k - 1) as nat);
        let before = member_node_facts(g, m, t, (k - 1) as nat);
        let all = member_node_facts(g, m, t, k);
        let n = g.nodes[k - 1];
        assert(g.ids[n.name] == k - 1);
        assert forall|i: int|
            0 <= i < k && (#[trigger] g.nodes[i]).alive_at(t) && m.contains(
                i as u32,
            ) implies stands_for(all, g.nodes[i].name) by {
            if i < k - 1 {
                assert(stands_for(before, g.nodes[i].name));
                let a = choose|a: int|
                    0 <= a < before.len() && (#[trigger] before[a]).name == g.nodes[i].name;
                assert(all[a].name == g.nodes[i].name);
            } else {
                assert(all[all.len() - 1].name == n.name);
            }
        }
    }
}

/// A node that is observed for the first time joins the graph and changes
/// nothing else that the graph states.
proof fn lemma_node_joins(
    g: GraphV,
    n: NodeV,
    v: VersionV,
    m: GraphV,
    facts: Seq<NodeFactV>,
)
    requires
        g.wf(),
        n.type_id < g.types.len(),
        v.origin_id < g.origins.len(),
        m.wf(),
        m.accepts(compact::version_op(g, n, v)),
        states(m, facts, Seq::empty()),
        !m.ids.contains_key(n.name),
    ensures
        states(
            m.apply(compact::version_op(g, n, v)),
            facts.push(fact_read_back(g, n, v)),
            Seq::empty(),
        ),
{
    let op = compact::version_op(g, n, v);
    let h = m.apply(op);
    let all = facts.push(fact_read_back(g, n, v));
    lemma_label(g, v.origin_id, m.origins);
    history::lemma_interned(m.types, g.types[n.type_id as int]);
    history::history_is_append_only(m, op);
    assert forall|i: int| 0 <= i < all.len() implies (model::open_version(
        (#[trigger] h.nodes[i]).versions,
    ) matches Some(w) && node_fact(h, h.nodes[i], w) == all[i] && h.nodes[i].versions.len()
        == 1) by {
        if i < facts.len() {
            assert(h.nodes[i] == m.nodes[i]);
            let w = model::open_version(m.nodes[i].versions)->0;
            assert(m.nodes[i].versions[0] == w);
            assert(w.origin_id < m.origins.len());
            assert(m.nodes[i].type_id < m.types.len());
            assert(m.origins[w.origin_id as int] == h.origins[w.origin_id as int]);
            assert(node_fact(m, m.nodes[i], w) == facts[i]);
        }
    }
}

proof fn lemma_members_join(g: GraphV, m: Set<NodeId>, t: Ts, k: nat)
    requires
        g.wf(),
        k <= g.nodes.len(),
        snapshot::run(GraphV::empty(), backend::member_node_ops(g, m, t, k)).1,
    ensures
        states(
            snapshot::run(GraphV::empty(), backend::member_node_ops(g, m, t, k)).0,
            member_node_facts(g, m, t, k),
            Seq::empty(),
        ),
    decreases k,
{
    let e = GraphV::empty();
    if k > 0 {
        let before = backend::member_node_ops(g, m, t, (k - 1) as nat);
        let facts = member_node_facts(g, m, t, (k - 1) as nat);
        let n = g.nodes[k - 1];
        model::lemma_version_at_is_version(n.versions, t);
        match model::version_at(n.versions, t) {
            Some(v) => {
                if m.contains((k - 1) as u32) {
                    let op = compact::version_op(g, n, v);
                    assert(before.push(op).drop_last() =~= before);
                    lemma_members_join(g, m, t, (k - 1) as nat);
                    history::running_only_adds(e, before);
                    let x = snapshot::run(e, before).0;
                    lemma_member_facts(g, m, t, (k - 1) as nat);
                    assert(g.ids[n.name] == k - 1);
                    assert(!x.ids.contains_key(n.name)) by {
                        if x.ids.contains_key(n.name) {
                            let i = x.ids[n.name] as int;
                            assert(facts[i] == node_fact(
                                x,
                                x.nodes[i],
                                model::open_version(x.nodes[i].versions)->0,
                            ));
                            assert(g.ids[facts[i].name] < k - 1);
                        }
                    }
                    assert(n.type_id < g.types.len());
                    let j = choose|j: int| 0 <= j < n.versions.len() && n.versions[j] == v;
                    assert(n.versions[j].origin_id < g.origins.len());
                    lemma_node_joins(g, n, v, x, facts);
                } else {
                    lemma_members_join(g, m, t, (k - 1) as nat);
                }
            },
            None => {
                lemma_members_join(g, m, t, (k - 1) as nat);
            },
        }
    }
}

/// An observed edge whose relation is open changes nothing that the graph
/// states.
proof fn lemma_edge_is_known(
    g: GraphV,
    i: int,
    m: GraphV,
    nodes: Seq<NodeFactV>,
    edges: Seq<EdgeFactV>,
)
    requires
        g.wf(),
        0 <= i < g.edges.len(),
        m.wf(),
        m.room(1),
        history::one_open_record(m),
        states(m, nodes, edges),
        related(edges, edge_fact(g, g.edges[i])),
    ensures
        states(m.apply(compact::edge_op(g, g.edges[i])), nodes, edges),
{
    let e = g.edges[i];
    let f = edge_fact(g, e);
    let op = compact::edge_op(g, e);
    let h = m.apply(op);
    let j = choose|j: int| 0 <= j < edges.len() && same_relation(#[trigger] edges[j], f);
    let x = m.edges[j];
    assert(edge_fact(m, x) == edges[j]);
    assert(x.src < m.nodes.len() && x.dst < m.nodes.len() && x.kind_id < m.kinds.len());
    assert(m.ids[m.nodes[x.src as int].name] == x.src);
    assert(m.ids[m.nodes[x.dst as int].name] == x.dst);
    interner::lemma_number_of(m.kinds, x.kind_id as int);
    history::lemma_interned(m.kinds, f.kind);
    assert(m.open.contains_key(x.key()));
    history::history_is_append_only(m, op);
    assert(h.nodes == m.nodes && h.edges == m.edges);
    assert forall|a: int| 0 <= a < edges.len() implies (#[trigger] h.edges[a]).valid_to == T_MAX
        && edge_fact(h, h.edges[a]) == edges[a] by {
        let y = m.edges[a];
        assert(y.origin_id < m.origins.len() && y.kind_id < m.kinds.len());
        assert(m.origins[y.origin_id as int] == h.origins[y.origin_id as int]);
        assert(m.kinds[y.kind_id as int] == h.kinds[y.kind_id as int]);
        assert(edge_fact(m, y) == edges[a]);
    }
    assert forall|a: int| 0 <= a < nodes.len() implies (model::open_version(
        (#[trigger] h.nodes[a]).versions,
    ) matches Some(v) && node_fact(h, h.nodes[a], v) == nodes[a] && h.nodes[a].versions.len()
        == 1) by {
        let v = model::open_version(m.nodes[a].versions)->0;
        assert(m.nodes[a].versions[0] == v);
        assert(v.origin_id < m.origins.len());
        assert(m.origins[v.origin_id as int] == h.origins[v.origin_id as int]);
        assert(node_fact(m, m.nodes[a], v) == nodes[a]);
    }
}

proof fn lemma_relations_join(g: GraphV, m: Set<NodeId>, t: Ts, k: nat)
    requires
        g.wf(),
        k <= g.edges.len(),
        forall|id: NodeId| #[trigger]
            m.contains(id) ==> id < g.nodes.len() && g.nodes[id as int].alive_at(t),
        snapshot::run(
            GraphV::empty(),
            backend::member_node_ops(g, m, t, g.nodes.len()) + backend::member_edge_ops(g, m, t, k),
        ).1,
    ensures
        ({
            let h = snapshot::run(
                GraphV::empty(),
                backend::member_node_ops(g, m, t, g.nodes.len()) + backend::member_edge_ops(
                    g,
                    m,
                    t,
                    k,
                ),
            ).0;
            &&& states(
                h,
                member_node_facts(g, m, t, g.nodes.len()),
                member_edge_facts(g, m, t, k),
            )
            &&& history::one_open_record(h)
        }),
    decreases k,
{
    let a = backend::member_node_ops(g, m, t, g.nodes.len());
    let nodes = member_node_facts(g, m, t, g.nodes.len());
    if k == 0 {
        assert(a + backend::member_edge_ops(g, m, t, 0) =~= a);
        lemma_members_join(g, m, t, g.nodes.len());
        assert(member_edge_facts(g, m, t, 0) =~= Seq::empty());
    } else {
        let before = backend::member_edge_ops(g, m, t, (k - 1) as nat);
        let facts = member_edge_facts(g, m, t, (k - 1) as nat);
        let e = g.edges[k - 1];
        if e.holds_at(t) && m.contains(e.src) && m.contains(e.dst) {
            let op = compact::edge_op(g, e);
            assert((a + before.push(op)).drop_last() =~= a + before);
            assert((a + before.push(op)).last() == op);
            lemma_relations_join(g, m, t, (k - 1) as nat);
            let x = snapshot::run(GraphV::empty(), a + before).0;
            history::running_only_adds(GraphV::empty(), a + before);
            lemma_member_facts(g, m, t, g.nodes.len());
            assert(g.nodes[e.src as int].alive_at(t) && g.nodes[e.dst as int].alive_at(t));
            history::relation_has_one_open_record(x, op);
            if related(facts, edge_fact(g, e)) {
                lemma_edge_is_known(g, k - 1, x, nodes, facts);
            } else {
                lemma_edge_joins(g, k - 1, x, nodes, facts);
            }
        } else {
            lemma_relations_join(g, m, t, (k - 1) as nat);
        }
    }
}

proof fn lemma_near_is_alive(g: GraphV, seeds: Seq<Seq<char>>, t: Ts, d: nat)
    requires
        g.wf(),
    ensures
        forall|id: NodeId| #[trigger]
            backend::near(g, backend::starts(g, seeds, t), t, true, d).contains(id) ==> id
                < g.nodes.len() && g.nodes[id as int].alive_at(t),
    decreases d,
{
    let s = backend::starts(g, seeds, t);
    if d > 0 {
        lemma_near_is_alive(g, seeds, t, (d - 1) as nat);
        let before = backend::near(g, s, t, true, (d - 1) as nat);
        assert forall|id: NodeId| #[trigger]
            backend::near(g, s, t, true, d).contains(id) implies id < g.nodes.len()
            && g.nodes[id as int].alive_at(t) by {
            if !before.contains(id) {
                let eid = choose|eid: int| #[trigger] backend::leads(g, before, t, true, eid, id);
                assert(g.edges[eid].dst < g.nodes.len());
            }
        }
    } else {
        assert forall|id: NodeId| #[trigger]
            backend::near(g, s, t, true, d).contains(id) implies id < g.nodes.len()
            && g.nodes[id as int].alive_at(t) by {
            assert(s.contains(id));
        }
    }
}

/// A neighbourhood that was read out of a store has the nodes within reach of
/// the seeds, as they were at the time asked for, and the relations that held
/// between them then, each since the time at which it began, and nothing else.
pub proof fn neighborhood_is_what_is_near(g: GraphV, seeds: Seq<Seq<char>>, depth: nat, t: Ts)
    requires
        g.wf(),
        snapshot::run(GraphV::empty(), backend::neighborhood_ops(g, seeds, depth, t)).1,
    ensures
        ({
            let m = backend::near(g, backend::starts(g, seeds, t), t, true, depth);
            &&& forall|id: NodeId| #[trigger]
                m.contains(id) ==> id < g.nodes.len() && g.nodes[id as int].alive_at(t)
            &&& states(
                snapshot::run(GraphV::empty(), backend::neighborhood_ops(g, seeds, depth, t)).0,
                member_node_facts(g, m, t, g.nodes.len()),
                member_edge_facts(g, m, t, g.edges.len()),
            )
        }),
{
    lemma_near_is_alive(g, seeds, t, depth);
    let m = backend::near(g, backend::starts(g, seeds, t), t, true, depth);
    lemma_relations_join(g, m, t, g.edges.len());
}

// ---------------------------------------------------------------------------
// Keys that survive renumbering
// ---------------------------------------------------------------------------

/// Whether a mutation observed the edge of a record, when it began.
pub open spec fn observed_by(g: GraphV, e: Edge, op: OpV) -> bool {
    match op {
        OpV::ObserveEdge { src, dst, kind, ts, .. } => {
            &&& src == g.nodes[e.src as int].name
            &&& dst == g.nodes[e.dst as int].name
            &&& kind == g.kinds[e.kind_id as int]
            &&& ts == e.valid_from
        },
        _ => false,
    }
}

spec fn was_observed(g: GraphV, e: Edge, ops: Seq<OpV>) -> bool {
    exists|k: int| 0 <= k < ops.len() && observed_by(g, e, #[trigger] ops[k])
}

proof fn lemma_records_were_observed(ops: Seq<OpV>)
    ensures
        ({
            let h = snapshot::run(GraphV::empty(), ops).0;
            forall|i: int| 0 <= i < h.edges.len() ==> was_observed(h, #[trigger] h.edges[i], ops)
        }),
    decreases ops.len(),
{
    if ops.len() > 0 {
        let front = ops.drop_last();
        let op = ops.last();
        lemma_records_were_observed(front);
        let (m, ok) = snapshot::run(GraphV::empty(), front);
        let h = snapshot::run(GraphV::empty(), ops).0;
        history::running_only_adds(GraphV::empty(), front);
        if ok && m.accepts(op) {
            history::history_is_append_only(m, op);
        }
        assert(history::grew(m, h));
        assert forall|i: int| 0 <= i < h.edges.len() implies was_observed(
            h,
            #[trigger] h.edges[i],
            ops,
        ) by {
            let e = h.edges[i];
            if i < m.edges.len() {
                let x = m.edges[i];
                assert(history::edge_grew(x, e));
                assert(was_observed(m, x, front));
                let k = choose|k: int| 0 <= k < front.len() && observed_by(m, x, #[trigger] front[k]);
                assert(x.src < m.nodes.len() && x.dst < m.nodes.len() && x.kind_id < m.kinds.len());
                assert(history::node_grew(m.nodes[x.src as int], h.nodes[x.src as int]));
                assert(history::node_grew(m.nodes[x.dst as int], h.nodes[x.dst as int]));
                assert(observed_by(h, e, ops[k]));
            } else {
                if !(op is ObserveEdge) {
                    lemma_only_edges_add(m, op);
                }
                match op {
                    OpV::ObserveEdge { src, dst, kind, ts, origin } => {
                        history::lemma_endpoints(m, src, dst, ts);
                        let b = m.with_endpoint(src, ts).with_endpoint(dst, ts);
                        history::lemma_interned(b.kinds, kind);
                        assert(observed_by(h, e, op));
                    },
                    _ => {},
                }
                assert(ops[ops.len() - 1] == op);
            }
        }
    }
}

proof fn lemma_only_edges_add(g: GraphV, op: OpV)
    requires
        g.wf(),
        !(op is ObserveEdge),
    ensures
        g.apply(op).edges.len() == g.edges.len(),
{
    match op {
        OpV::RetireNode { name, ts } => {
            if g.ids.contains_key(name) {
                let id = g.ids[name];
                let n = g.nodes[id as int];
                let x = GraphV {
                    nodes: g.nodes.update(
                        id as int,
                        NodeV { versions: model::closed_at(n.versions, ts), ..n },
                    ),
                    ..g
                };
                g.lemma_touching_in_range(id);
                x.lemma_close_edges_frame(g.out_ids(id) + g.in_ids(id), ts);
            }
        },
        _ => {},
    }
}

proof fn lemma_member_node_ops(g: GraphV, m: Set<NodeId>, t: Ts, k: nat)
    ensures
        forall|j: int|
            0 <= j < backend::member_node_ops(g, m, t, k).len() ==> !(
            #[trigger] backend::member_node_ops(g, m, t, k)[j] is ObserveEdge),
    decreases k,
{
    if k > 0 {
        lemma_member_node_ops(g, m, t, (k - 1) as nat);
    }
}

proof fn lemma_member_edge_ops(g: GraphV, m: Set<NodeId>, t: Ts, k: nat)
    requires
        k <= g.edges.len(),
    ensures
        forall|j: int|
            0 <= j < backend::member_edge_ops(g, m, t, k).len() ==> is_edge_op(
                g,
                #[trigger] backend::member_edge_ops(g, m, t, k)[j],
            ),
    decreases k,
{
    if k > 0 {
        lemma_member_edge_ops(g, m, t, (k - 1) as nat);
        let before = backend::member_edge_ops(g, m, t, (k - 1) as nat);
        let all = backend::member_edge_ops(g, m, t, k);
        assert forall|j: int| 0 <= j < all.len() implies is_edge_op(g, #[trigger] all[j]) by {
            if j < before.len() {
                assert(all[j] == before[j]);
            } else {
                assert(all[j] == compact::edge_op(g, g.edges[k - 1]));
            }
        }
    }
}

spec fn is_edge_op(g: GraphV, op: OpV) -> bool {
    exists|i: int| 0 <= i < g.edges.len() && op == compact::edge_op(g, #[trigger] g.edges[i])
}

/// Stable keys agree between a store and a neighbourhood that was read out of
/// it: every edge of the neighbourhood has the key of an edge of the store,
/// though it has another number.
pub proof fn neighborhood_keeps_stable_keys(
    g: GraphV,
    seeds: Seq<Seq<char>>,
    depth: nat,
    t: Ts,
    i: int,
)
    requires
        0 <= i < snapshot::run(
            GraphV::empty(),
            backend::neighborhood_ops(g, seeds, depth, t),
        ).0.edges.len(),
        i <= u32::MAX,
        g.edges.len() <= u32::MAX,
    ensures
        exists|j: u32|
            j < g.edges.len() && fnv::stable_key(
                snapshot::run(GraphV::empty(), backend::neighborhood_ops(g, seeds, depth, t)).0,
                i as u32,
            ) == #[trigger] fnv::stable_key(g, j),
{
    let ops = backend::neighborhood_ops(g, seeds, depth, t);
    let h = snapshot::run(GraphV::empty(), ops).0;
    lemma_records_were_observed(ops);
    let e = h.edges[i];
    let k = choose|k: int| 0 <= k < ops.len() && observed_by(h, e, #[trigger] ops[k]);
    let m = backend::near(g, backend::starts(g, seeds, t), t, true, depth);
    let a = backend::member_node_ops(g, m, t, g.nodes.len());
    let b = backend::member_edge_ops(g, m, t, g.edges.len());
    lemma_member_node_ops(g, m, t, g.nodes.len());
    lemma_member_edge_ops(g, m, t, g.edges.len());
    if k < a.len() {
        assert(ops[k] == a[k]);
    } else {
        assert(ops[k] == b[k - a.len()]);
        let j = choose|j: int|
            0 <= j < g.edges.len() && b[k - a.len()] == compact::edge_op(g, #[trigger] g.edges[j]);
        assert(fnv::stable_key(h, i as u32) == fnv::stable_key(g, j as u32));
    }
}

/// The key of an edge depends on the names of its ends, its kind and when it
/// began alone: graphs that number them otherwise agree on it.
pub proof fn stable_key_ignores_numbers(a: GraphV, x: u32, b: GraphV, y: u32)
    requires
        x < a.edges.len(),
        y < b.edges.len(),
        edge_fact(a, a.edges[x as int]).src == edge_fact(b, b.edges[y as int]).src,
        edge_fact(a, a.edges[x as int]).dst == edge_fact(b, b.edges[y as int]).dst,
        edge_fact(a, a.edges[x as int]).kind == edge_fact(b, b.edges[y as int]).kind,
        edge_fact(a, a.edges[x as int]).since == edge_fact(b, b.edges[y as int]).since,
    ensures
        fnv::stable_key(a, x) == fnv::stable_key(b, y),
{
}

} // verus!
