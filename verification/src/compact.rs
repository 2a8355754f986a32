//! Rewriting a log down to what is open, and deletion by provenance.

use crate::graph;
use crate::graph::{NodeVersion, Op, TemporalGraph};
use crate::json;
use crate::json::JsonV;
use crate::model;
use crate::model::{Edge, GraphV, NodeId, NodeV, OpV, VersionV, T_MAX};
use crate::persist;
use crate::persist::{header_line, JournalV, PersistentGraph};
use crate::snapshot;
use crate::snapshot::{full_message, LogV};
use crate::text;
use crate::text::{byte_len, has_prefix};
use crate::wal;
use crate::wal::record_of;
use vstd::prelude::*;

verus! {

/// The label of a number: none for 0.
pub open spec fn label_at(g: GraphV, id: u32) -> Option<Seq<char>> {
    if id == 0 {
        None
    } else {
        Some(g.origins[id as int])
    }
}

/// Whether a label begins with `prefix`. Facts without a label match nothing.
pub open spec fn label_matches(g: GraphV, id: u32, prefix: Seq<char>) -> bool {
    id != 0 && prefix.is_prefix_of(g.origins[id as int])
}

/// Whether deletion by `prefix` takes a node: its open version has a label
/// that matches.
pub open spec fn purged_node(g: GraphV, n: NodeV, prefix: Option<Seq<char>>) -> bool {
    match (prefix, model::open_version(n.versions)) {
        (Some(p), Some(v)) => label_matches(g, v.origin_id, p),
        _ => false,
    }
}

/// Whether deletion by `prefix` takes an edge: its own label matches, or an
/// end of it is taken.
pub open spec fn purged_edge(g: GraphV, e: Edge, prefix: Option<Seq<char>>) -> bool {
    match prefix {
        Some(p) => label_matches(g, e.origin_id, p) || purged_node(
            g,
            g.nodes[e.src as int],
            prefix,
        ) || purged_node(g, g.nodes[e.dst as int], prefix),
        None => false,
    }
}

/// The document that stored properties stand for; null where the text is none.
pub open spec fn props_document(props: Seq<char>) -> JsonV {
    match json::json_parse(props) {
        Ok(v) => v,
        Err(_) => JsonV::Null,
    }
}

/// The mutation that observes a node as a version has it.
pub open spec fn version_op(g: GraphV, n: NodeV, v: VersionV) -> OpV {
    if n.placeholder {
        OpV::ObservePlaceholder {
            name: n.name,
            inferred_type: g.types[n.type_id as int],
            ts: v.observed_at,
            origin: label_at(g, v.origin_id),
        }
    } else {
        OpV::ObserveNode {
            name: n.name,
            asset_type: g.types[n.type_id as int],
            props: props_document(v.props),
            ts: v.observed_at,
            origin: label_at(g, v.origin_id),
        }
    }
}

/// The mutation that opens what is open of a node.
pub open spec fn node_op(g: GraphV, n: NodeV) -> Option<OpV> {
    match model::open_version(n.versions) {
        Some(v) => Some(version_op(g, n, v)),
        None => None,
    }
}

/// The mutation that opens an edge.
pub open spec fn edge_op(g: GraphV, e: Edge) -> OpV {
    OpV::ObserveEdge {
        src: g.nodes[e.src as int].name,
        dst: g.nodes[e.dst as int].name,
        kind: g.kinds[e.kind_id as int],
        ts: e.valid_from,
        origin: label_at(g, e.origin_id),
    }
}

/// The mutations that open the first `k` nodes, those that deletion takes left
/// out.
pub open spec fn node_ops(g: GraphV, prefix: Option<Seq<char>>, k: nat) -> Seq<OpV>
    decreases k,
{
    if k == 0 {
        Seq::empty()
    } else {
        let before = node_ops(g, prefix, (k - 1) as nat);
        let n = g.nodes[k - 1];
        match node_op(g, n) {
            Some(op) => if purged_node(g, n, prefix) {
                before
            } else {
                before.push(op)
            },
            None => before,
        }
    }
}

/// The mutations that open the first `k` edge records that are open, those
/// that deletion takes left out.
pub open spec fn edge_ops(g: GraphV, prefix: Option<Seq<char>>, k: nat) -> Seq<OpV>
    decreases k,
{
    if k == 0 {
        Seq::empty()
    } else {
        let before = edge_ops(g, prefix, (k - 1) as nat);
        let e = g.edges[k - 1];
        if e.valid_to == T_MAX && !purged_edge(g, e, prefix) {
            before.push(edge_op(g, e))
        } else {
            before
        }
    }
}

/// The mutations that open what is open: nodes in the order of their ids, then
/// edges in the order of observation, each with the time at which it began.
pub open spec fn open_ops(g: GraphV, prefix: Option<Seq<char>>) -> Seq<OpV> {
    node_ops(g, prefix, g.nodes.len()) + edge_ops(g, prefix, g.edges.len())
}

/// How many of the first `k` nodes deletion takes.
pub open spec fn purged_nodes(g: GraphV, prefix: Seq<char>, k: nat) -> nat
    decreases k,
{
    if k == 0 {
        0
    } else {
        purged_nodes(g, prefix, (k - 1) as nat) + if purged_node(g, g.nodes[k - 1], Some(prefix)) {
            1nat
        } else {
            0
        }
    }
}

/// How many of the first `k` edge records are open and taken by deletion.
pub open spec fn purged_edges(g: GraphV, prefix: Seq<char>, k: nat) -> nat
    decreases k,
{
    if k == 0 {
        0
    } else {
        let e = g.edges[k - 1];
        purged_edges(g, prefix, (k - 1) as nat) + if e.valid_to == T_MAX && purged_edge(
            g,
            e,
            Some(prefix),
        ) {
            1nat
        } else {
            0
        }
    }
}

fn label_of(g: &TemporalGraph, id: u32) -> (res: Option<String>)
    requires
        id < g@.origins.len(),
    ensures
        graph::label_view(res) == label_at(g@, id),
{
    if id == 0 {
        None
    } else {
        Some(g.origin_str(id).to_owned())
    }
}

fn matches_label(g: &TemporalGraph, id: u32, prefix: &str) -> (res: bool)
    requires
        id < g@.origins.len(),
    ensures
        res == label_matches(g@, id, prefix@),
{
    id != 0 && has_prefix(g.origin_str(id), prefix)
}

/// Whether deletion takes node `id`.
fn node_is_purged(g: &TemporalGraph, id: NodeId, prefix: Option<&str>) -> (res: bool)
    requires
        g.wf(),
        id < g@.nodes.len(),
    ensures
        res == purged_node(g@, g@.nodes[id as int], graph::str_view(prefix)),
{
    proof {
        g.lemma_wf();
    }
    let n = g.node(id);
    let k: usize = n.versions.len();
    match prefix {
        Some(p) => {
            if k == 0 {
                return false;
            }
            let v = &n.versions[k - 1];
            assert(n@.versions.last() == v@);
            assert(g@.nodes[id as int].versions[k - 1].origin_id < g@.origins.len());
            v.retired_at == T_MAX && matches_label(g, v.origin_id, p)
        },
        None => false,
    }
}

/// Whether deletion takes edge record `i`.
fn edge_is_purged(g: &TemporalGraph, i: usize, prefix: Option<&str>) -> (res: bool)
    requires
        g.wf(),
        i < g@.edges.len(),
    ensures
        res == purged_edge(g@, g@.edges[i as int], graph::str_view(prefix)),
{
    proof {
        g.lemma_wf();
        assert(g@.edges[i as int].src < g@.nodes.len());
    }
    let e = g.edge_at(i);
    match prefix {
        Some(p) => matches_label(g, e.origin_id, p) || node_is_purged(g, e.src, prefix)
            || node_is_purged(g, e.dst, prefix),
        None => false,
    }
}

/// The mutation that observes node `id` as a version has it.
pub(crate) fn observe_version(g: &TemporalGraph, id: NodeId, v: &NodeVersion) -> (res: Op)
    requires
        g.wf(),
        id < g@.nodes.len(),
        v@.origin_id < g@.origins.len(),
    ensures
        res@ == version_op(g@, g@.nodes[id as int], v@),
{
    let n = g.node(id);
    let ty = g.node_type(id).to_owned();
    let origin = label_of(g, v.origin_id);
    if n.placeholder {
        Op::ObservePlaceholder {
            name: n.name.clone(),
            inferred_type: ty,
            ts: v.observed_at,
            origin,
        }
    } else {
        Op::ObserveNode {
            name: n.name.clone(),
            asset_type: ty,
            props: v.props_value(),
            ts: v.observed_at,
            origin,
        }
    }
}

/// The mutation that opens edge record `i`.
pub(crate) fn open_edge(g: &TemporalGraph, i: usize) -> (res: Op)
    requires
        g.wf(),
        i < g@.edges.len(),
    ensures
        res@ == edge_op(g@, g@.edges[i as int]),
{
    proof {
        g.lemma_wf();
        assert(g@.edges[i as int].src < g@.nodes.len());
    }
    let e = g.edge_at(i);
    Op::ObserveEdge {
        src: g.node_name(e.src).to_owned(),
        dst: g.node_name(e.dst).to_owned(),
        kind: g.kind_str(e.kind_id).to_owned(),
        ts: e.valid_from,
        origin: label_of(g, e.origin_id),
    }
}

/// The mutation that opens what is open of node `id`.
fn open_node(g: &TemporalGraph, id: NodeId) -> (res: Option<Op>)
    requires
        g.wf(),
        id < g@.nodes.len(),
    ensures
        match res {
            Some(op) => node_op(g@, g@.nodes[id as int]) == Some(op@),
            None => node_op(g@, g@.nodes[id as int]) is None,
        },
{
    proof {
        g.lemma_wf();
    }
    let n = g.node(id);
    let k: usize = n.versions.len();
    if k == 0 {
        return None;
    }
    let v = &n.versions[k - 1];
    assert(n@.versions.last() == v@);
    assert(g@.nodes[id as int].versions[k - 1].origin_id < g@.origins.len());
    if v.retired_at != T_MAX {
        return None;
    }
    Some(observe_version(g, id, v))
}

/// The mutations that open what is open, and how many nodes and edges
/// deletion took.
pub fn survivors(g: &TemporalGraph, prefix: Option<&str>) -> (res: (Vec<Op>, usize, usize))
    requires
        g.wf(),
    ensures
        snapshot::op_views(res.0@) == open_ops(g@, graph::str_view(prefix)),
        match graph::str_view(prefix) {
            Some(p) => res.1 == purged_nodes(g@, p, g@.nodes.len()) && res.2 == purged_edges(
                g@,
                p,
                g@.edges.len(),
            ),
            None => res.1 == 0 && res.2 == 0,
        },
{
    let ghost p = graph::str_view(prefix);
    let mut ops: Vec<Op> = Vec::new();
    let mut nodes: usize = 0;
    let mut edges: usize = 0;
    let mut i: usize = 0;
    let n: usize = g.node_count();
    proof {
        g.lemma_wf();
    }
    assert(snapshot::op_views(ops@) =~= node_ops(g@, p, 0));
    while i < n
        invariant
            i <= n,
            n == g@.nodes.len(),
            n <= u32::MAX,
            g.wf(),
            p == graph::str_view(prefix),
            snapshot::op_views(ops@) == node_ops(g@, p, i as nat),
            nodes <= i,
            match p {
                Some(x) => nodes == purged_nodes(g@, x, i as nat),
                None => nodes == 0,
            },
        decreases n - i,
    {
        let id: NodeId = i as NodeId;
        let gone = node_is_purged(g, id, prefix);
        if gone {
            nodes = nodes + 1;
        } else if let Some(op) = open_node(g, id) {
            let ghost o = ops@;
            ops.push(op);
            assert(snapshot::op_views(ops@) =~= snapshot::op_views(o).push(op@));
        }
        i += 1;
    }
    let ghost first = node_ops(g@, p, n as nat);
    let m: usize = g.edge_count();
    i = 0;
    assert(first =~= first + edge_ops(g@, p, 0));
    while i < m
        invariant
            i <= m,
            m == g@.edges.len(),
            g.wf(),
            g@.wf(),
            p == graph::str_view(prefix),
            first == node_ops(g@, p, g@.nodes.len()),
            snapshot::op_views(ops@) == first + edge_ops(g@, p, i as nat),
            edges <= i,
            match p {
                Some(x) => edges == purged_edges(g@, x, i as nat),
                None => edges == 0,
            },
        decreases m - i,
    {
        let e = g.edge_at(i);
        assert(g@.edges[i as int].src < g@.nodes.len());
        let gone = edge_is_purged(g, i, prefix);
        if e.valid_to == T_MAX {
            if gone {
                edges = edges + 1;
            } else {
                let op = open_edge(g, i);
                let ghost o = ops@;
                ops.push(op);
                assert(snapshot::op_views(ops@) =~= snapshot::op_views(o).push(op@));
                assert(snapshot::op_views(ops@) =~= first + edge_ops(g@, p, (i + 1) as nat));
            }
        }
        i += 1;
    }
    (ops, nodes, edges)
}

/// The records of mutations as they stand in the log.
fn records_of(ops: &Vec<Op>, out: &mut String)
    ensures
        final(out)@ == old(out)@ + wal::records_text(snapshot::op_views(ops@)),
{
    let ghost start = out@;
    let ghost all = snapshot::op_views(ops@);
    let mut i: usize = 0;
    assert(all.take(0) =~= Seq::empty());
    assert(out@ =~= start + wal::records_text(all.take(0)));
    while i < ops.len()
        invariant
            i <= ops@.len(),
            all == snapshot::op_views(ops@),
            out@ == start + wal::records_text(all.take(i as int)),
        decreases ops@.len() - i,
    {
        let ghost before = out@;
        let line = record_of(&ops[i]);
        out.append(line.as_str());
        out.push('\n');
        proof {
            assert(all.take(i + 1).drop_last() =~= all.take(i as int));
            assert(all.take(i + 1).last() == ops@[i as int]@);
            assert(out@ =~= start + wal::records_text(all.take(i + 1)));
        }
        i += 1;
    }
    assert(all.take(all.len() as int) =~= all);
}

/// A rewritten log.
pub struct Compaction {
    pub text: String,
    pub ops_written: usize,
    pub id: String,
}

/// What rewriting a log came to.
#[derive(Debug, Clone)]
pub struct CompactReport {
    pub ops_written: usize,
    pub bytes_before: u64,
    pub bytes_after: u64,
    /// Where the log as it was before has gone, if it was kept.
    pub archive: Option<String>,
}

/// A rewritten log without what deletion took, the graph that it replays to,
/// and what was taken.
pub struct Purge {
    pub log: Compaction,
    pub graph: TemporalGraph,
    pub nodes_dropped: usize,
    pub edges_dropped: usize,
}

/// The identity that a rewritten log keeps, or gets where it had none.
pub open spec fn kept_id(j: JournalV, fresh_id: Seq<char>) -> Seq<char> {
    match j.log.wal_id {
        Some(id) => id,
        None => fresh_id,
    }
}

/// The text of a rewritten log.
pub open spec fn rewritten(j: JournalV, prefix: Option<Seq<char>>, fresh_id: Seq<char>) -> Seq<char> {
    persist::header_text(kept_id(j, fresh_id)) + wal::records_text(open_ops(j.graph, prefix))
}

impl Compaction {
    pub open spec fn rewrites(&self, j: JournalV, prefix: Option<Seq<char>>, fresh_id: Seq<char>) -> bool {
        &&& self.text@ == rewritten(j, prefix, fresh_id)
        &&& self.ops_written == open_ops(j.graph, prefix).len()
        &&& self.id@ == kept_id(j, fresh_id)
    }

    /// What the rewriting came to, for a log of so many bytes that was kept as
    /// `archive`, if it was.
    pub fn report(&self, bytes_before: u64, archive: Option<String>) -> (res: CompactReport)
        ensures
            res.ops_written == self.ops_written,
            res.bytes_before == bytes_before,
            res.bytes_after == text::utf8_len(self.text@),
            res.archive == archive,
    {
        CompactReport {
            ops_written: self.ops_written,
            bytes_before,
            bytes_after: byte_len(self.text.as_str()) as u64,
            archive,
        }
    }
}

impl PersistentGraph {
    fn rewrite(&self, ops: &Vec<Op>, fresh_id: &str, Ghost(prefix): Ghost<Option<Seq<char>>>) -> (res: Compaction)
        requires
            snapshot::op_views(ops@) == open_ops(self@.graph, prefix),
        ensures
            res.rewrites(self@, prefix, fresh_id@),
    {
        let id: String = match self.wal_id() {
            Some(s) => s.to_owned(),
            None => fresh_id.to_owned(),
        };
        let mut text = header_line(id.as_str());
        records_of(ops, &mut text);
        Compaction { text, ops_written: ops.len(), id }
    }

    /// Rewrites the log down to the mutations that open what is open. Closed
    /// history is dropped; the identity of the log stays.
    pub fn compact(&self, fresh_id: &str) -> (res: Compaction)
        requires
            self.wf(),
        ensures
            res.rewrites(self@, None, fresh_id@),
    {
        let (ops, _, _) = survivors(PersistentGraph::graph(self), None);
        self.rewrite(&ops, fresh_id, Ghost(None))
    }

    /// Goes on with a rewritten log. The graph in memory keeps its history and
    /// its ids until the log is opened again.
    pub fn adopt(&mut self, c: &Compaction)
        requires
            old(self).wf(),
        ensures
            final(self).wf(),
            final(self)@ == (JournalV {
                log: LogV {
                    pending: Seq::empty(),
                    wal_id: Some(c.id@),
                    lsn: c.ops_written as nat,
                    ..old(self)@.log
                },
                ..old(self)@
            }),
    {
        self.restart(c.id.clone(), c.ops_written as u64);
    }

    /// Rewrites the log without the facts whose provenance begins with
    /// `prefix`: nodes whose open version came from it, edges observed from
    /// it, edges that touch such a node. The graph is rebuilt from what stays.
    pub fn purge(&self, prefix: &str, fresh_id: &str) -> (res: Result<Purge, String>)
        requires
            self.wf(),
        ensures
            match res {
                Ok(p) => {
                    let ops = open_ops(self@.graph, Some(prefix@));
                    &&& p.log.rewrites(self@, Some(prefix@), fresh_id@)
                    &&& p.graph.wf()
                    &&& snapshot::run(GraphV::empty(), ops) == (p.graph@, true)
                    &&& p.nodes_dropped == purged_nodes(
                        self@.graph,
                        prefix@,
                        self@.graph.nodes.len(),
                    )
                    &&& p.edges_dropped == purged_edges(
                        self@.graph,
                        prefix@,
                        self@.graph.edges.len(),
                    )
                },
                Err(e) => e@ == "graph is full: no ids are left"@ && !snapshot::run(
                    GraphV::empty(),
                    open_ops(self@.graph, Some(prefix@)),
                ).1,
            },
    {
        let (ops, nodes_dropped, edges_dropped) = survivors(
            PersistentGraph::graph(self),
            Some(prefix),
        );
        let log = self.rewrite(&ops, fresh_id, Ghost(Some(prefix@)));
        let ghost all = snapshot::op_views(ops@);
        let mut g = TemporalGraph::new();
        let mut i: usize = 0;
        assert(all.take(0) =~= Seq::empty());
        while i < ops.len()
            invariant
                i <= ops@.len(),
                all == snapshot::op_views(ops@),
                all == open_ops(self@.graph, Some(prefix@)),
                g.wf(),
                snapshot::run(GraphV::empty(), all.take(i as int)) == (g@, true),
            decreases ops@.len() - i,
        {
            proof {
                assert(all.take(i + 1).drop_last() =~= all.take(i as int));
                assert(all.take(i + 1).last() == ops@[i as int]@);
            }
            if !g.can_apply(&ops[i]) {
                proof {
                    lemma_run_fails(GraphV::empty(), all, i + 1);
                }
                return Err(full_message());
            }
            g.apply(&ops[i]);
            i += 1;
        }
        assert(all.take(all.len() as int) =~= all);
        Ok(Purge { log, graph: g, nodes_dropped, edges_dropped })
    }

    /// Goes on with the log and the graph that deletion left.
    pub fn adopt_purge(&mut self, p: Purge)
        requires
            old(self).wf(),
            p.graph.wf(),
        ensures
            final(self).wf(),
            final(self)@ == (JournalV {
                graph: p.graph@,
                log: LogV {
                    pending: Seq::empty(),
                    wal_id: Some(p.log.id@),
                    lsn: p.log.ops_written as nat,
                    ..old(self)@.log
                },
            }),
    {
        self.restart(p.log.id, p.log.ops_written as u64);
        self.replace_graph(p.graph);
    }
}

/// Mutations after one that is refused change nothing.
pub proof fn lemma_run_fails(g: GraphV, ops: Seq<OpV>, k: int)
    requires
        0 <= k <= ops.len(),
        !snapshot::run(g, ops.take(k)).1,
    ensures
        !snapshot::run(g, ops).1,
        snapshot::run(g, ops).0 == snapshot::run(g, ops.take(k)).0,
    decreases ops.len() - k,
{
    if k == ops.len() {
        assert(ops.take(k) =~= ops);
    } else {
        assert(ops.drop_last().take(k) =~= ops.take(k));
        lemma_run_fails(g, ops.drop_last(), k);
    }
}

/// The name that a mutation is about, or the names of the ends of its edge.
pub open spec fn mentions(op: OpV, name: Seq<char>) -> bool {
    match op {
        OpV::ObserveNode { name: n, .. } => n == name,
        OpV::ObservePlaceholder { name: n, .. } => n == name,
        OpV::RetireNode { name: n, .. } => n == name,
        OpV::ObserveEdge { src, dst, .. } => src == name || dst == name,
        OpV::RetireEdge { src, dst, .. } => src == name || dst == name,
    }
}

pub open spec fn origin_of(op: OpV) -> Option<Seq<char>> {
    match op {
        OpV::ObserveNode { origin, .. } => origin,
        OpV::ObservePlaceholder { origin, .. } => origin,
        OpV::ObserveEdge { origin, .. } => origin,
        _ => None,
    }
}

/// A mutation that deletion by `prefix` leaves no trace in: it carries no
/// label that matches and mentions no node that was taken.
pub open spec fn untouched(g: GraphV, op: OpV, prefix: Seq<char>) -> bool {
    &&& !(origin_of(op) matches Some(o) && prefix.is_prefix_of(o))
    &&& forall|i: int|
        0 <= i < g.nodes.len() && purged_node(g, #[trigger] g.nodes[i], Some(prefix)) ==> !mentions(
            op,
            g.nodes[i].name,
        )
}

proof fn lemma_nodes_untouched(g: GraphV, prefix: Seq<char>, k: nat)
    requires
        g.wf(),
        k <= g.nodes.len(),
    ensures
        forall|j: int|
            0 <= j < node_ops(g, Some(prefix), k).len() ==> untouched(
                g,
                #[trigger] node_ops(g, Some(prefix), k)[j],
                prefix,
            ),
    decreases k,
{
    if k > 0 {
        lemma_nodes_untouched(g, prefix, (k - 1) as nat);
        let before = node_ops(g, Some(prefix), (k - 1) as nat);
        let all = node_ops(g, Some(prefix), k);
        let n = g.nodes[k - 1];
        assert forall|j: int| 0 <= j < all.len() implies untouched(g, #[trigger] all[j], prefix) by {
            if j < before.len() {
                assert(all[j] == before[j]);
            } else {
                assert(all[j] == node_op(g, n)->0);
                assert forall|i: int|
                    0 <= i < g.nodes.len() && purged_node(
                        g,
                        #[trigger] g.nodes[i],
                        Some(prefix),
                    ) implies !mentions(all[j], g.nodes[i].name) by {
                    assert(g.ids[g.nodes[i].name] == i);
                    assert(g.ids[n.name] == k - 1);
                }
            }
        }
    }
}

proof fn lemma_edges_untouched(g: GraphV, prefix: Seq<char>, k: nat)
    requires
        g.wf(),
        k <= g.edges.len(),
    ensures
        forall|j: int|
            0 <= j < edge_ops(g, Some(prefix), k).len() ==> untouched(
                g,
                #[trigger] edge_ops(g, Some(prefix), k)[j],
                prefix,
            ),
    decreases k,
{
    if k > 0 {
        lemma_edges_untouched(g, prefix, (k - 1) as nat);
        let before = edge_ops(g, Some(prefix), (k - 1) as nat);
        let all = edge_ops(g, Some(prefix), k);
        let e = g.edges[k - 1];
        assert(e.src < g.nodes.len() && e.dst < g.nodes.len());
        assert forall|j: int| 0 <= j < all.len() implies untouched(g, #[trigger] all[j], prefix) by {
            if j < before.len() {
                assert(all[j] == before[j]);
            } else {
                assert(all[j] == edge_op(g, e));
                assert forall|i: int|
                    0 <= i < g.nodes.len() && purged_node(
                        g,
                        #[trigger] g.nodes[i],
                        Some(prefix),
                    ) implies !mentions(all[j], g.nodes[i].name) by {
                    assert(g.ids[g.nodes[i].name] == i);
                    assert(g.ids[g.nodes[e.src as int].name] == e.src);
                    assert(g.ids[g.nodes[e.dst as int].name] == e.dst);
                }
            }
        }
    }
}

/// Deletion by provenance leaves no fact of that provenance in the rewritten
/// log, and no mention of a node that it took.
pub proof fn purge_leaves_no_trace(g: GraphV, prefix: Seq<char>)
    requires
        g.wf(),
    ensures
        forall|j: int|
            0 <= j < open_ops(g, Some(prefix)).len() ==> untouched(
                g,
                #[trigger] open_ops(g, Some(prefix))[j],
                prefix,
            ),
{
    lemma_nodes_untouched(g, prefix, g.nodes.len());
    lemma_edges_untouched(g, prefix, g.edges.len());
    let a = node_ops(g, Some(prefix), g.nodes.len());
    let b = edge_ops(g, Some(prefix), g.edges.len());
    assert forall|j: int| 0 <= j < open_ops(g, Some(prefix)).len() implies untouched(
        g,
        #[trigger] open_ops(g, Some(prefix))[j],
        prefix,
    ) by {
        if j < a.len() {
            assert(open_ops(g, Some(prefix))[j] == a[j]);
        } else {
            assert(open_ops(g, Some(prefix))[j] == b[j - a.len()]);
        }
    }
}

} // verus!
