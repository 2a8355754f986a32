//! Long-term storage of a graph, behind calls that move whole neighbourhoods
//! and batches of weights, never single edges.

use crate::compact;
use crate::compact::{observe_version, open_edge};
use crate::graph;
use crate::graph::{Op, TemporalGraph};
use crate::model;
use crate::model::{EdgeId, GraphV, NodeId, OpV, Ts};
use crate::snapshot;
use crate::snapshot::{full_message, record_ops};
use crate::text;
use std::collections::HashMap;
use vstd::prelude::*;

verus! {

broadcast use vstd::std_specs::hash::group_hash_axioms;

/// What is kept of an edge under its stable key: the weight it had last, as
/// the bits of a single-precision number, and when that was.
#[derive(Debug, Clone, Copy, PartialEq, Eq, Structural)]
pub struct EdgeState {
    pub w_bits: u32,
    pub t_last: Ts,
}

/// Long-term storage of a graph.
pub trait GraphBackend {
    spec fn backend_wf(&self) -> bool;

    /// Appends mutations.
    fn append_ops(&mut self, ops: &Vec<Op>) -> (res: Result<(), String>)
        requires
            old(self).backend_wf(),
        ensures
            final(self).backend_wf(),
    ;

    /// The nodes within `depth` hops of the seeds, as they were at `at_ts`,
    /// and the edges among them, as a graph of its own.
    fn neighborhood(&self, seeds: &Vec<String>, depth: u32, at_ts: Ts) -> (res: Result<
        TemporalGraph,
        String,
    >)
        requires
            self.backend_wf(),
        ensures
            res matches Ok(g) ==> g.wf(),
    ;

    /// What is kept of edges, by their stable keys.
    fn load_weights(&self, keys: &Vec<u64>) -> (res: Result<HashMap<u64, EdgeState>, String>)
        requires
            self.backend_wf(),
    ;

    /// Keeps what was learned of edges.
    fn flush_weights(&mut self, deltas: &Vec<(u64, EdgeState)>) -> (res: Result<(), String>)
        requires
            old(self).backend_wf(),
        ensures
            final(self).backend_wf(),
    ;

    /// Makes everything so far durable.
    fn checkpoint(&mut self) -> (res: Result<(), String>)
        requires
            old(self).backend_wf(),
        ensures
            final(self).backend_wf(),
    ;
}

/// The nodes that seeds name, where they are alive at `t`.
pub open spec fn starts(g: GraphV, seeds: Seq<Seq<char>>, t: Ts) -> Set<NodeId> {
    Set::new(
        |id: NodeId|
            exists|i: int|
                0 <= i < seeds.len() && g.id_of(#[trigger] seeds[i]) == Some(id)
                    && g.nodes[id as int].alive_at(t),
    )
}

/// Whether edge record `eid` leads from a member of `s` to `v` at `t`; with
/// `live`, to a node that is alive.
pub open spec fn leads(g: GraphV, s: Set<NodeId>, t: Ts, live: bool, eid: int, v: NodeId) -> bool {
    &&& 0 <= eid < g.edges.len()
    &&& g.edges[eid].holds_at(t)
    &&& s.contains(g.edges[eid].src)
    &&& g.edges[eid].dst == v
    &&& live ==> g.nodes[v as int].alive_at(t)
}

/// The members of `s`, and where edges lead from them.
pub open spec fn stepped(g: GraphV, s: Set<NodeId>, t: Ts, live: bool) -> Set<NodeId> {
    Set::new(|v: NodeId| s.contains(v) || exists|eid: int| #[trigger] leads(g, s, t, live, eid, v))
}

/// The nodes within `d` hops of a set, along edges that hold at `t`.
pub open spec fn near(g: GraphV, s: Set<NodeId>, t: Ts, live: bool, d: nat) -> Set<NodeId>
    decreases d,
{
    if d == 0 {
        s
    } else {
        stepped(g, near(g, s, t, live, (d - 1) as nat), t, live)
    }
}

/// Where one hop leads no further, no more hops do.
pub proof fn lemma_near_fixed(g: GraphV, s: Set<NodeId>, t: Ts, live: bool, d: nat, e: nat)
    requires
        d <= e,
        near(g, s, t, live, d + 1) == near(g, s, t, live, d),
    ensures
        near(g, s, t, live, e) == near(g, s, t, live, d),
    decreases e - d,
{
    if d < e {
        lemma_near_fixed(g, s, t, live, d, (e - 1) as nat);
    }
}

/// More hops lead at least as far.
pub proof fn lemma_near_grows(g: GraphV, s: Set<NodeId>, t: Ts, live: bool, d: nat, e: nat)
    requires
        d <= e,
    ensures
        near(g, s, t, live, d).subset_of(near(g, s, t, live, e)),
    decreases e - d,
{
    if d < e {
        lemma_near_grows(g, s, t, live, d, (e - 1) as nat);
    }
}

/// The mutations that observe the first `k` nodes that are members, as they
/// were at `t`.
pub open spec fn member_node_ops(g: GraphV, m: Set<NodeId>, t: Ts, k: nat) -> Seq<OpV>
    decreases k,
{
    if k == 0 {
        Seq::empty()
    } else {
        let before = member_node_ops(g, m, t, (k - 1) as nat);
        let n = g.nodes[k - 1];
        match model::version_at(n.versions, t) {
            Some(v) => if m.contains((k - 1) as u32) {
                before.push(compact::version_op(g, n, v))
            } else {
                before
            },
            None => before,
        }
    }
}

/// The mutations that observe those of the first `k` edge records that hold at
/// `t` between members.
pub open spec fn member_edge_ops(g: GraphV, m: Set<NodeId>, t: Ts, k: nat) -> Seq<OpV>
    decreases k,
{
    if k == 0 {
        Seq::empty()
    } else {
        let before = member_edge_ops(g, m, t, (k - 1) as nat);
        let e = g.edges[k - 1];
        if e.holds_at(t) && m.contains(e.src) && m.contains(e.dst) {
            before.push(compact::edge_op(g, e))
        } else {
            before
        }
    }
}

/// The mutations that make the neighbourhood of seeds a graph of its own: its
/// nodes in the order of their ids, then its edges in the order of
/// observation, each with the time at which it began.
pub open spec fn neighborhood_ops(g: GraphV, seeds: Seq<Seq<char>>, depth: nat, t: Ts) -> Seq<OpV> {
    let m = near(g, starts(g, seeds, t), t, true, depth);
    member_node_ops(g, m, t, g.nodes.len()) + member_edge_ops(g, m, t, g.edges.len())
}

/// `member` marks the members of `m`.
spec fn marks(member: Seq<bool>, m: Set<NodeId>, n: nat) -> bool {
    &&& member.len() == n
    &&& forall|i: int| 0 <= i < n ==> #[trigger] member[i] == m.contains(i as u32)
    &&& forall|v: NodeId| #[trigger] m.contains(v) ==> v < n
}

/// Every edge from `u` leads to a marked node.
spec fn spent(g: GraphV, member: Seq<bool>, t: Ts, u: NodeId) -> bool {
    forall|eid: int|
        0 <= eid < g.edges.len() && (#[trigger] g.edges[eid]).src == u && g.edges[eid].holds_at(t)
            && g.nodes[g.edges[eid].dst as int].alive_at(t) ==> member[g.edges[eid].dst as int]
}

fn mark_seeds(g: &TemporalGraph, seeds: &Vec<String>, t: Ts) -> (res: (Vec<bool>, Vec<NodeId>))
    requires
        g.wf(),
    ensures
        marks(res.0@, starts(g@, text::views(seeds@), t), g@.nodes.len()),
        forall|i: int|
            0 <= i < res.1@.len() ==> (#[trigger] res.1@[i]) < g@.nodes.len()
                && res.0@[res.1@[i] as int],
        forall|i: int| 0 <= i < res.0@.len() && res.0@[i] ==> res.1@.contains(i as u32),
{
    let ghost ss = text::views(seeds@);
    let n: usize = g.node_count();
    let mut member: Vec<bool> = Vec::new();
    let mut i: usize = 0;
    proof {
        g.lemma_wf();
    }
    while i < n
        invariant
            i <= n,
            member@.len() == i,
            forall|k: int| 0 <= k < i ==> !#[trigger] member@[k],
        decreases n - i,
    {
        member.push(false);
        i += 1;
    }
    let mut frontier: Vec<NodeId> = Vec::new();
    let mut k: usize = 0;
    proof {
        assert forall|v: NodeId| !#[trigger] starts(g@, ss.take(0), t).contains(v) by {}
    }
    while k < seeds.len()
        invariant
            k <= seeds@.len(),
            ss == text::views(seeds@),
            g.wf(),
            g@.wf(),
            n == g@.nodes.len(),
            marks(member@, starts(g@, ss.take(k as int), t), n as nat),
            forall|i: int|
                0 <= i < frontier@.len() ==> (#[trigger] frontier@[i]) < n
                    && member@[frontier@[i] as int],
            forall|i: int| 0 <= i < n && member@[i] ==> frontier@.contains(i as u32),
        decreases seeds@.len() - k,
    {
        let name = seeds[k].as_str();
        let ghost a = starts(g@, ss.take(k as int), t);
        let ghost b = starts(g@, ss.take(k + 1), t);
        proof {
            assert(ss[k as int] == name@);
            assert forall|v: NodeId| #[trigger] b.contains(v) == (a.contains(v) || (g@.id_of(name@)
                == Some(v) && g@.nodes[v as int].alive_at(t))) by {
                if a.contains(v) {
                    let i = choose|i: int|
                        0 <= i < ss.take(k as int).len() && g@.id_of(
                            #[trigger] ss.take(k as int)[i],
                        ) == Some(v) && g@.nodes[v as int].alive_at(t);
                    assert(ss.take(k + 1)[i] == ss.take(k as int)[i]);
                }
                if g@.id_of(name@) == Some(v) && g@.nodes[v as int].alive_at(t) {
                    assert(ss.take(k + 1)[k as int] == name@);
                }
                if b.contains(v) && !a.contains(v) {
                    let i = choose|i: int|
                        0 <= i < ss.take(k + 1).len() && g@.id_of(#[trigger] ss.take(k + 1)[i])
                            == Some(v) && g@.nodes[v as int].alive_at(t);
                    if i < k {
                        assert(ss.take(k as int)[i] == ss.take(k + 1)[i]);
                    }
                }
            }
        }
        match g.id_of(name) {
            Some(id) => {
                assert(id < g@.nodes.len());
                if g.node(id).alive_at(t) && !member[id as usize] {
                    let ghost f = frontier@;
                    let ghost before = member@;
                    member.set(id as usize, true);
                    frontier.push(id);
                    proof {
                        assert forall|i: int| 0 <= i < n && member@[i] implies frontier@.contains(
                            i as u32,
                        ) by {
                            if i == id {
                                assert(frontier@[f.len() as int] == id);
                            } else {
                                assert(before[i]);
                                let j = f.index_of(i as u32);
                                assert(frontier@[j] == i as u32);
                            }
                        }
                        assert(b.contains(id));
                    }
                }
                assert(forall|i: int| 0 <= i < n ==> #[trigger] member@[i] == b.contains(i as u32));
            },
            None => {},
        }
        assert(marks(member@, b, n as nat));
        k += 1;
    }
    assert(ss.take(ss.len() as int) =~= ss);
    (member, frontier)
}

/// Marks where the edges of the nodes of `frontier` lead. Returns the nodes
/// that were not marked before.
fn mark_step(
    g: &TemporalGraph,
    member: &mut Vec<bool>,
    frontier: &Vec<NodeId>,
    t: Ts,
    Ghost(m): Ghost<Set<NodeId>>,
) -> (next: Vec<NodeId>)
    requires
        g.wf(),
        marks(old(member)@, m, g@.nodes.len()),
        forall|i: int|
            0 <= i < frontier@.len() ==> (#[trigger] frontier@[i]) < g@.nodes.len()
                && m.contains(frontier@[i]),
        forall|u: NodeId|
            m.contains(u) && !frontier@.contains(u) ==> #[trigger] spent(g@, old(member)@, t, u),
    ensures
        marks(final(member)@, stepped(g@, m, t, true), g@.nodes.len()),
        forall|i: int|
            0 <= i < next@.len() ==> (#[trigger] next@[i]) < g@.nodes.len()
                && stepped(g@, m, t, true).contains(next@[i]),
        forall|u: NodeId|
            stepped(g@, m, t, true).contains(u) && !next@.contains(u) ==> #[trigger] spent(
                g@,
                final(member)@,
                t,
                u,
            ),
        next@.len() == 0 ==> stepped(g@, m, t, true) == m,
{
    let ghost goal = stepped(g@, m, t, true);
    let ghost n = g@.nodes.len();
    let mut next: Vec<NodeId> = Vec::new();
    let mut i: usize = 0;
    proof {
        g.lemma_wf();
        assert(forall|v: NodeId| m.contains(v) ==> #[trigger] goal.contains(v));
    }
    while i < frontier.len()
        invariant
            i <= frontier@.len(),
            g.wf(),
            g@.wf(),
            n == g@.nodes.len(),
            goal == stepped(g@, m, t, true),
            member@.len() == n,
            forall|k: int| 0 <= k < n && m.contains(k as u32) ==> #[trigger] member@[k],
            forall|k: int| 0 <= k < n && #[trigger] member@[k] ==> goal.contains(k as u32),
            forall|k: int|
                0 <= k < n && #[trigger] member@[k] ==> m.contains(k as u32) || next@.contains(
                    k as u32,
                ),
            forall|k: int|
                0 <= k < next@.len() ==> (#[trigger] next@[k]) < n && member@[next@[k] as int],
            forall|k: int|
                0 <= k < frontier@.len() ==> (#[trigger] frontier@[k]) < n && m.contains(
                    frontier@[k],
                ),
            forall|k: int| 0 <= k < i ==> spent(g@, member@, t, #[trigger] frontier@[k]),
        decreases frontier@.len() - i,
    {
        let u: NodeId = frontier[i];
        let ids = g.out_edge_ids(u);
        proof {
            model::lemma_edge_ids(g@.edges, model::leaves(u));
        }
        let ghost at_start = member@;
        let mut j: usize = 0;
        while j < ids.len()
            invariant
                j <= ids@.len(),
                i < frontier@.len(),
                u == frontier@[i as int],
                g.wf(),
                g@.wf(),
                n == g@.nodes.len(),
                ids@ == model::edge_ids(g@.edges, model::leaves(u)),
                forall|k: int|
                    0 <= k < ids@.len() ==> (#[trigger] ids@[k]) < g@.edges.len()
                        && g@.edges[ids@[k] as int].src == u,
                goal == stepped(g@, m, t, true),
                m.contains(u),
                member@.len() == n,
                at_start.len() == n,
                forall|k: int| 0 <= k < n && at_start[k] ==> #[trigger] member@[k],
                forall|k: int| 0 <= k < n && m.contains(k as u32) ==> #[trigger] member@[k],
                forall|k: int| 0 <= k < n && #[trigger] member@[k] ==> goal.contains(k as u32),
                forall|k: int|
                    0 <= k < n && #[trigger] member@[k] ==> m.contains(k as u32)
                        || next@.contains(k as u32),
                forall|k: int|
                    0 <= k < next@.len() ==> (#[trigger] next@[k]) < n && member@[next@[k] as int],
                forall|k: int|
                    0 <= k < j && g@.edges[(#[trigger] ids@[k]) as int].holds_at(t)
                        && g@.nodes[g@.edges[ids@[k] as int].dst as int].alive_at(t)
                        ==> member@[g@.edges[ids@[k] as int].dst as int],
            decreases ids@.len() - j,
        {
            let eid: EdgeId = ids[j];
            let e = *g.edge(eid);
            assert(e.dst < g@.nodes.len());
            if e.alive_at(t) && g.node(e.dst).alive_at(t) && !member[e.dst as usize] {
                let ghost before = member@;
                let ghost o = next@;
                member.set(e.dst as usize, true);
                next.push(e.dst);
                proof {
                    assert(leads(g@, m, t, true, eid as int, e.dst));
                    assert(goal.contains(e.dst));
                    assert forall|k: int| 0 <= k < n && #[trigger] member@[k] implies m.contains(
                        k as u32,
                    ) || next@.contains(k as u32) by {
                        if k == e.dst {
                            assert(next@[o.len() as int] == e.dst);
                        } else {
                            assert(before[k]);
                            if !m.contains(k as u32) {
                                let x = o.index_of(k as u32);
                                assert(next@[x] == k as u32);
                            }
                        }
                    }
                }
            }
            j += 1;
        }
        proof {
            assert(spent(g@, member@, t, u)) by {
                assert forall|eid: int|
                    0 <= eid < g@.edges.len() && (#[trigger] g@.edges[eid]).src == u
                        && g@.edges[eid].holds_at(t)
                        && g@.nodes[g@.edges[eid].dst as int].alive_at(t) implies member@[g@.edges[eid].dst as int] by {
                    assert(model::leaves(u)(g@.edges[eid]));
                    let k = ids@.index_of(eid as u32);
                    assert(ids@[k] == eid as u32);
                }
            }
            assert forall|k: int| 0 <= k < i + 1 implies spent(
                g@,
                member@,
                t,
                #[trigger] frontier@[k],
            ) by {
                if k < i {
                    assert(spent(g@, at_start, t, frontier@[k]));
                    assert forall|eid: int|
                        0 <= eid < g@.edges.len() && (#[trigger] g@.edges[eid]).src == frontier@[k]
                            && g@.edges[eid].holds_at(t)
                            && g@.nodes[g@.edges[eid].dst as int].alive_at(t) implies member@[g@.edges[eid].dst as int] by {
                        assert(at_start[g@.edges[eid].dst as int]);
                    }
                }
            }
        }
        i += 1;
    }
    proof {
        // Every node of the set is spent by now.
        assert forall|u: NodeId| m.contains(u) implies #[trigger] spent(g@, member@, t, u) by {
            if frontier@.contains(u) {
                let k = frontier@.index_of(u);
                assert(spent(g@, member@, t, frontier@[k]));
            } else {
                assert(spent(g@, old(member)@, t, u));
                assert forall|eid: int|
                    0 <= eid < g@.edges.len() && (#[trigger] g@.edges[eid]).src == u
                        && g@.edges[eid].holds_at(t)
                        && g@.nodes[g@.edges[eid].dst as int].alive_at(t) implies member@[g@.edges[eid].dst as int] by {
                    let d = g@.edges[eid].dst;
                    assert(old(member)@[d as int]);
                    assert(m.contains(d));
                }
            }
        }
        assert forall|v: NodeId| #[trigger] goal.contains(v) implies v < n && member@[v as int] by {
            if !m.contains(v) {
                let eid = choose|eid: int| #[trigger] leads(g@, m, t, true, eid, v);
                assert(spent(g@, member@, t, g@.edges[eid].src));
            } else {
                assert(old(member)@[v as int]);
            }
        }
        assert(marks(member@, goal, n));
        assert forall|u: NodeId| goal.contains(u) && !next@.contains(u) implies #[trigger] spent(
            g@,
            member@,
            t,
            u,
        ) by {
            assert(member@[u as int]);
            assert(m.contains(u));
        }
        if next@.len() == 0 {
            assert forall|v: NodeId| #[trigger] goal.contains(v) == m.contains(v) by {
                if goal.contains(v) {
                    assert(member@[v as int]);
                }
            }
            assert(goal =~= m);
        }
    }
    next
}

/// Marks the nodes within `depth` hops of the seeds.
fn mark_near(g: &TemporalGraph, seeds: &Vec<String>, depth: u32, t: Ts) -> (member: Vec<bool>)
    requires
        g.wf(),
    ensures
        marks(
            member@,
            near(g@, starts(g@, text::views(seeds@), t), t, true, depth as nat),
            g@.nodes.len(),
        ),
{
    let ghost s = starts(g@, text::views(seeds@), t);
    let (mut member, mut frontier) = mark_seeds(g, seeds, t);
    let mut d: u32 = 0;
    proof {
        assert forall|u: NodeId| s.contains(u) && !frontier@.contains(u) implies #[trigger] spent(
            g@,
            member@,
            t,
            u,
        ) by {
            assert(member@[u as int]);
        }
        assert forall|i: int| 0 <= i < frontier@.len() implies (#[trigger] frontier@[i])
            < g@.nodes.len() && s.contains(frontier@[i]) by {
            assert(member@[frontier@[i] as int]);
        }
    }
    while d < depth
        invariant
            d <= depth,
            g.wf(),
            s == starts(g@, text::views(seeds@), t),
            marks(member@, near(g@, s, t, true, d as nat), g@.nodes.len()),
            forall|i: int|
                0 <= i < frontier@.len() ==> (#[trigger] frontier@[i]) < g@.nodes.len() && near(
                    g@,
                    s,
                    t,
                    true,
                    d as nat,
                ).contains(frontier@[i]),
            forall|u: NodeId|
                near(g@, s, t, true, d as nat).contains(u) && !frontier@.contains(u)
                    ==> #[trigger] spent(g@, member@, t, u),
        decreases depth - d,
    {
        let ghost m = near(g@, s, t, true, d as nat);
        let next = mark_step(g, &mut member, &frontier, t, Ghost(m));
        assert(near(g@, s, t, true, (d + 1) as nat) == stepped(g@, m, t, true));
        if next.len() == 0 {
            proof {
                lemma_near_fixed(g@, s, t, true, d as nat, depth as nat);
            }
            return member;
        }
        frontier = next;
        d += 1;
    }
    member
}

/// The mutations that make the neighbourhood of seeds a graph of its own.
fn ops_near(g: &TemporalGraph, seeds: &Vec<String>, depth: u32, t: Ts) -> (ops: Vec<Op>)
    requires
        g.wf(),
    ensures
        snapshot::op_views(ops@) == neighborhood_ops(
            g@,
            text::views(seeds@),
            depth as nat,
            t,
        ),
{
    let ghost m = near(g@, starts(g@, text::views(seeds@), t), t, true, depth as nat);
    let member = mark_near(g, seeds, depth, t);
    let mut ops: Vec<Op> = Vec::new();
    let n: usize = g.node_count();
    let mut i: usize = 0;
    proof {
        g.lemma_wf();
    }
    assert(snapshot::op_views(ops@) =~= member_node_ops(g@, m, t, 0));
    while i < n
        invariant
            i <= n,
            n == g@.nodes.len(),
            n <= u32::MAX,
            g.wf(),
            g@.wf(),
            marks(member@, m, n as nat),
            snapshot::op_views(ops@) == member_node_ops(g@, m, t, i as nat),
        decreases n - i,
    {
        if member[i] {
            let id: NodeId = i as u32;
            match g.node(id).version_at(t) {
                Some(v) => {
                    proof {
                        model::lemma_version_at_is_version(g@.nodes[i as int].versions, t);
                    }
                    let op = observe_version(g, id, v);
                    let ghost o = ops@;
                    ops.push(op);
                    assert(snapshot::op_views(ops@) =~= snapshot::op_views(o).push(op@));
                },
                None => {},
            }
        }
        i += 1;
    }
    let ghost first = member_node_ops(g@, m, t, g@.nodes.len());
    let k: usize = g.edge_count();
    let mut j: usize = 0;
    assert(first =~= first + member_edge_ops(g@, m, t, 0));
    while j < k
        invariant
            j <= k,
            k == g@.edges.len(),
            g.wf(),
            g@.wf(),
            marks(member@, m, g@.nodes.len()),
            snapshot::op_views(ops@) == first + member_edge_ops(g@, m, t, j as nat),
        decreases k - j,
    {
        let e = g.edge_at(j);
        assert(g@.edges[j as int].src < g@.nodes.len());
        assert(g@.edges[j as int].dst < g@.nodes.len());
        if e.alive_at(t) && member[e.src as usize] && member[e.dst as usize] {
            let op = open_edge(g, j);
            let ghost o = ops@;
            ops.push(op);
            assert(snapshot::op_views(ops@) =~= snapshot::op_views(o).push(op@));
            assert(snapshot::op_views(ops@) =~= first + member_edge_ops(
                g@,
                m,
                t,
                (j + 1) as nat,
            ));
        }
        j += 1;
    }
    ops
}

/// Storage in memory: what other storage has to do as well.
pub struct InMemoryBackend {
    graph: TemporalGraph,
    weights: HashMap<u64, EdgeState>,
}

/// The mathematical form of an [`InMemoryBackend`].
pub struct BackendV {
    pub graph: GraphV,
    pub weights: Map<u64, EdgeState>,
}

impl View for InMemoryBackend {
    type V = BackendV;

    closed spec fn view(&self) -> BackendV {
        BackendV { graph: self.graph@, weights: self.weights@ }
    }
}

/// Weights with batches of others in their place, the last one of each key.
pub open spec fn flushed(w: Map<u64, EdgeState>, deltas: Seq<(u64, EdgeState)>) -> Map<
    u64,
    EdgeState,
>
    decreases deltas.len(),
{
    if deltas.len() == 0 {
        w
    } else {
        flushed(w, deltas.drop_last()).insert(deltas.last().0, deltas.last().1)
    }
}

impl InMemoryBackend {
    pub closed spec fn wf(&self) -> bool {
        self.graph.wf()
    }

    pub fn new() -> (res: Self)
        ensures
            res.wf(),
            res@ == (BackendV { graph: GraphV::empty(), weights: Map::empty() }),
    {
        InMemoryBackend { graph: TemporalGraph::new(), weights: HashMap::new() }
    }

    pub fn graph(&self) -> (res: &TemporalGraph)
        requires
            self.wf(),
        ensures
            res.wf(),
            res@ == self@.graph,
    {
        &self.graph
    }
}

impl GraphBackend for InMemoryBackend {
    open spec fn backend_wf(&self) -> bool {
        self.wf()
    }

    fn append_ops(&mut self, ops: &Vec<Op>) -> (res: Result<(), String>)
        ensures
            ({
                let (g, ok) = snapshot::run(old(self)@.graph, snapshot::op_views(ops@));
                &&& final(self)@ == (BackendV { graph: g, ..old(self)@ })
                &&& match res {
                    Ok(_) => ok,
                    Err(e) => !ok && e@ == "graph is full: no ids are left"@,
                }
            }),
    {
        let ghost all = snapshot::op_views(ops@);
        let ghost start = self.graph@;
        let mut i: usize = 0;
        assert(all.take(0) =~= Seq::empty());
        while i < ops.len()
            invariant
                i <= ops@.len(),
                all == snapshot::op_views(ops@),
                start == old(self)@.graph,
                self.graph.wf(),
                self.weights@ == old(self)@.weights,
                snapshot::run(start, all.take(i as int)) == (self.graph@, true),
            decreases ops@.len() - i,
        {
            proof {
                assert(all.take(i + 1).drop_last() =~= all.take(i as int));
                assert(all.take(i + 1).last() == ops@[i as int]@);
            }
            if !self.graph.can_apply(&ops[i]) {
                proof {
                    compact::lemma_run_fails(start, all, i + 1);
                }
                return Err(full_message());
            }
            self.graph.apply(&ops[i]);
            i += 1;
        }
        assert(all.take(all.len() as int) =~= all);
        Ok(())
    }

    fn neighborhood(&self, seeds: &Vec<String>, depth: u32, at_ts: Ts) -> (res: Result<
        TemporalGraph,
        String,
    >)
        ensures
            ({
                let ops = neighborhood_ops(
                    self@.graph,
                    text::views(seeds@),
                    depth as nat,
                    at_ts,
                );
                let (g, ok) = snapshot::run(GraphV::empty(), ops);
                match res {
                    Ok(out) => ok && out@ == g,
                    Err(e) => !ok && e@ == "graph is full: no ids are left"@,
                }
            }),
    {
        let ops = ops_near(&self.graph, seeds, depth, at_ts);
        let mut out = TemporalGraph::new();
        match record_ops(&mut out, ops) {
            Ok(_) => Ok(out),
            Err(e) => Err(e),
        }
    }

    fn load_weights(&self, keys: &Vec<u64>) -> (res: Result<HashMap<u64, EdgeState>, String>)
        ensures
            res matches Ok(m) && forall|k: u64|
                #![trigger m@.contains_key(k)]
                m@.contains_key(k) == (keys@.contains(k) && self@.weights.contains_key(k)) && (
                m@.contains_key(k) ==> m@[k] == self@.weights[k]),
    {
        let mut out: HashMap<u64, EdgeState> = HashMap::new();
        let mut i: usize = 0;
        while i < keys.len()
            invariant
                i <= keys@.len(),
                forall|k: u64|
                    #![trigger out@.contains_key(k)]
                    out@.contains_key(k) == (keys@.take(i as int).contains(k)
                        && self.weights@.contains_key(k)) && (out@.contains_key(k) ==> out@[k]
                        == self.weights@[k]),
            decreases keys@.len() - i,
        {
            let key: u64 = keys[i];
            let ghost before = out@;
            match self.weights.get(&key) {
                Some(s) => {
                    out.insert(key, *s);
                },
                None => {},
            }
            proof {
                let a = keys@.take(i as int);
                let b = keys@.take(i + 1);
                assert forall|k: u64| b.contains(k) == (a.contains(k) || k == key) by {
                    if a.contains(k) {
                        assert(b[a.index_of(k)] == k);
                    }
                    assert(b[i as int] == key);
                    if b.contains(k) && k != key {
                        let x = b.index_of(k);
                        assert(a[x] == k);
                    }
                }
            }
            i += 1;
        }
        assert(keys@.take(keys@.len() as int) =~= keys@);
        Ok(out)
    }

    fn flush_weights(&mut self, deltas: &Vec<(u64, EdgeState)>) -> (res: Result<(), String>)
        ensures
            res is Ok,
            final(self)@ == (BackendV {
                weights: flushed(old(self)@.weights, deltas@),
                ..old(self)@
            }),
    {
        let mut i: usize = 0;
        assert(deltas@.take(0) =~= Seq::empty());
        while i < deltas.len()
            invariant
                i <= deltas@.len(),
                self.graph == old(self).graph,
                self.weights@ == flushed(old(self).weights@, deltas@.take(i as int)),
            decreases deltas@.len() - i,
        {
            assert(deltas@.take(i + 1).drop_last() =~= deltas@.take(i as int));
            let (k, s) = deltas[i];
            self.weights.insert(k, s);
            i += 1;
        }
        assert(deltas@.take(deltas@.len() as int) =~= deltas@);
        Ok(())
    }

    fn checkpoint(&mut self) -> (res: Result<(), String>)
        ensures
            res is Ok,
            final(self)@ == old(self)@,
    {
        Ok(())
    }
}

/// What was kept of an edge last is what is loaded of it.
pub proof fn flushed_weights_are_loaded(
    w: Map<u64, EdgeState>,
    deltas: Seq<(u64, EdgeState)>,
    i: int,
)
    requires
        0 <= i < deltas.len(),
        forall|j: int| i < j < deltas.len() ==> (#[trigger] deltas[j]).0 != deltas[i].0,
    ensures
        flushed(w, deltas).contains_key(deltas[i].0),
        flushed(w, deltas)[deltas[i].0] == deltas[i].1,
    decreases deltas.len(),
{
    if i < deltas.len() - 1 {
        assert(deltas[deltas.len() - 1].0 != deltas[i].0);
        assert(deltas.drop_last()[i] == deltas[i]);
        flushed_weights_are_loaded(w, deltas.drop_last(), i);
    }
}

} // verus!
