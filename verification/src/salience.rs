//! What learned weights decide: where activation may spread, which nodes rank
//! first, which edges are forgotten, and which facts contradict each other.
//!
//! Weights and activations are single-precision numbers that are never
//! negative. They come as their bits, which are ordered as the numbers are.

use crate::backend;
use crate::fnv;
use crate::fnv::stable_edge_key;
use crate::graph::{Op, TemporalGraph};
use crate::model;
use crate::model::{EdgeId, GraphV, NodeId, OpV, Ts, T_MAX};
use crate::moments;
use crate::query;
use crate::snapshot;
use crate::sort;
use crate::text;
use crate::text::{cat3, cat5, decimal_text, has_prefix, same_text};
use std::collections::HashMap;
use vstd::prelude::*;

verus! {

broadcast use vstd::std_specs::hash::group_hash_axioms;

// ---------------------------------------------------------------------------
// Spreading activation
// ---------------------------------------------------------------------------

/// The nodes that seeds name, where they are alive at `t`, in the order of the
/// seeds.
pub open spec fn seed_ids(g: GraphV, seeds: Seq<Seq<char>>, t: Ts) -> Seq<NodeId>
    decreases seeds.len(),
{
    if seeds.len() == 0 {
        Seq::empty()
    } else {
        let before = seed_ids(g, seeds.drop_last(), t);
        match g.id_of(seeds.last()) {
            Some(id) => if g.nodes[id as int].alive_at(t) {
                before.push(id)
            } else {
                before
            },
            None => before,
        }
    }
}

proof fn lemma_seed_ids(g: GraphV, seeds: Seq<Seq<char>>, t: Ts)
    ensures
        forall|i: int|
            0 <= i < seed_ids(g, seeds, t).len() ==> backend::starts(g, seeds, t).contains(
                #[trigger] seed_ids(g, seeds, t)[i],
            ),
    decreases seeds.len(),
{
    if seeds.len() > 0 {
        let front = seeds.drop_last();
        lemma_seed_ids(g, front, t);
        let a = seed_ids(g, front, t);
        let b = seed_ids(g, seeds, t);
        assert forall|i: int| 0 <= i < b.len() implies backend::starts(g, seeds, t).contains(
            #[trigger] b[i],
        ) by {
            if i < a.len() {
                assert(a[i] == b[i]);
                assert(backend::starts(g, front, t).contains(a[i]));
                let k = choose|k: int|
                    0 <= k < front.len() && g.id_of(#[trigger] front[k]) == Some(a[i])
                        && g.nodes[a[i] as int].alive_at(t);
                assert(seeds[k] == front[k]);
            } else {
                assert(seeds[seeds.len() - 1] == seeds.last());
            }
        }
    }
}

/// Some node is called `name` and has a version in force at `t`.
pub open spec fn names_live(g: GraphV, name: Seq<char>, t: Ts) -> bool {
    exists|n: int|
        0 <= n < g.nodes.len() && (#[trigger] g.nodes[n]).name == name && moments::in_force(
            g.nodes[n],
            t,
        )
}

/// Where the seeds that start stand in the list of seeds.
proof fn lemma_seeds_listed(g: GraphV, seeds: Seq<Seq<char>>, t: Ts) -> (at: Seq<int>)
    requires
        g.wf(),
    ensures
        moments::listed_at(
            at,
            seed_ids(g, seeds, t).map_values(|id: NodeId| g.nodes[id as int].name),
            seeds.len(),
            |i: int| names_live(g, seeds[i], t),
            |i: int| seeds[i],
        ),
        forall|k: int|
            0 <= k < seed_ids(g, seeds, t).len() ==> (#[trigger] seed_ids(g, seeds, t)[k])
                < g.nodes.len(),
        forall|id: NodeId| #[trigger]
            seed_ids(g, seeds, t).contains(id) <==> backend::starts(g, seeds, t).contains(id),
        forall|id: NodeId| #[trigger]
            seed_ids(g, seeds, t).contains(id) <==> id < g.nodes.len() && seeds.contains(
                g.nodes[id as int].name,
            ) && moments::in_force(g.nodes[id as int], t),
    decreases seeds.len(),
{
    let b = seed_ids(g, seeds, t);
    let name_of = |id: NodeId| g.nodes[id as int].name;
    let chosen = |i: int| names_live(g, seeds[i], t);
    let at = if seeds.len() == 0 {
        Seq::empty()
    } else {
        let front = seeds.drop_last();
        let before = lemma_seeds_listed(g, front, t);
        let a = seed_ids(g, front, t);
        let last = seeds.last();
        let earlier = |i: int| names_live(g, front[i], t);
        if g.ids.contains_key(last) {
            let id = g.ids[last];
            moments::alive_is_within_an_interval(g.nodes[id as int], t);
            assert(names_live(g, last, t) <==> g.nodes[id as int].alive_at(t)) by {
                if names_live(g, last, t) {
                    let n = choose|n: int|
                        0 <= n < g.nodes.len() && (#[trigger] g.nodes[n]).name == last
                            && moments::in_force(g.nodes[n], t);
                    assert(g.ids[g.nodes[n].name] == n);
                }
            }
        }
        let at = if names_live(g, last, t) {
            before.push(seeds.len() - 1)
        } else {
            before
        };
        assert forall|i: int| 0 <= i < seeds.len() && #[trigger] chosen(i) implies at.contains(
            i,
        ) by {
            if i < front.len() {
                assert(earlier(i));
                let k = before.index_of(i);
                assert(at[k] == i);
            } else {
                assert(at[at.len() - 1] == i);
            }
        }
        assert forall|k: int| 0 <= k < at.len() implies 0 <= (#[trigger] at[k]) < seeds.len()
            && chosen(at[k]) && b.map_values(name_of)[k] == seeds[at[k]] by {
            if k < before.len() {
                assert(at[k] == before[k]);
                assert(earlier(before[k]));
                assert(a.map_values(name_of)[k] == front[before[k]]);
                assert(front[before[k]] == seeds[before[k]]);
            }
        }
        at
    };
    let names = b.map_values(name_of);
    assert forall|id: NodeId| #[trigger] b.contains(id) <==> id < g.nodes.len() && seeds.contains(
        g.nodes[id as int].name,
    ) && moments::in_force(g.nodes[id as int], t) by {
        if b.contains(id) {
            let k = b.index_of(id);
            assert(b[k] < g.nodes.len());
            assert(chosen(at[k]) && names[k] == seeds[at[k]]);
            let n = choose|n: int|
                0 <= n < g.nodes.len() && (#[trigger] g.nodes[n]).name == seeds[at[k]]
                    && moments::in_force(g.nodes[n], t);
            assert(g.ids[g.nodes[n].name] == n);
            assert(g.ids[g.nodes[id as int].name] == id);
        }
        if id < g.nodes.len() && seeds.contains(g.nodes[id as int].name) && moments::in_force(
            g.nodes[id as int],
            t,
        ) {
            let i = seeds.index_of(g.nodes[id as int].name);
            assert(chosen(i));
            let k = at.index_of(i);
            assert(names[k] == seeds[i]);
            assert(g.ids[g.nodes[b[k] as int].name] == b[k]);
            assert(g.ids[g.nodes[id as int].name] == id);
            assert(b[k] == id);
        }
    }
    assert forall|id: NodeId| #[trigger] b.contains(id) <==> backend::starts(
        g,
        seeds,
        t,
    ).contains(id) by {
        if id < g.nodes.len() {
            moments::alive_is_within_an_interval(g.nodes[id as int], t);
            assert(g.ids[g.nodes[id as int].name] == id);
            if b.contains(id) {
                let i = seeds.index_of(g.nodes[id as int].name);
                assert(g.id_of(seeds[i]) == Some(id));
            }
        }
    }
    at
}

/// Activation starts at every seed: the first frontier holds a node for each
/// seed that names a node with a version in force at `t`, in the order of the
/// seeds, and no other node.
pub proof fn every_live_seed_starts(g: GraphV, seeds: Seq<Seq<char>>, t: Ts)
    requires
        g.wf(),
    ensures
        moments::lists(
            seed_ids(g, seeds, t).map_values(|id: NodeId| g.nodes[id as int].name),
            seeds.len(),
            |i: int| names_live(g, seeds[i], t),
            |i: int| seeds[i],
        ),
        seed_ids(g, seeds, t).to_set() == backend::starts(g, seeds, t),
        forall|id: NodeId| #[trigger]
            seed_ids(g, seeds, t).contains(id) <==> id < g.nodes.len() && seeds.contains(
                g.nodes[id as int].name,
            ) && moments::in_force(g.nodes[id as int], t),
{
    let at = lemma_seeds_listed(g, seeds, t);
    assert(seed_ids(g, seeds, t).to_set() =~= backend::starts(g, seeds, t)) by {
        assert forall|id: NodeId|
            seed_ids(g, seeds, t).to_set().contains(id) <==> #[trigger] backend::starts(
                g,
                seeds,
                t,
            ).contains(id) by {
            assert(seed_ids(g, seeds, t).contains(id) <==> backend::starts(g, seeds, t).contains(
                id,
            ));
        }
    }
}

pub open spec fn holds(g: GraphV, t: Ts) -> spec_fn(EdgeId) -> bool {
    |eid: EdgeId| g.edges[eid as int].holds_at(t)
}

/// The records of edges that leave a node and hold at `t`.
pub fn alive_out(g: &TemporalGraph, u: NodeId, t: Ts) -> (res: Vec<EdgeId>)
    requires
        g.wf(),
        u < g@.nodes.len(),
    ensures
        res@ == g@.out_ids(u).filter(holds(g@, t)),
        forall|i: int|
            0 <= i < res@.len() ==> (#[trigger] res@[i]) < g@.edges.len()
                && g@.edges[res@[i] as int].src == u && g@.edges[res@[i] as int].holds_at(t),
{
    let ids = g.out_edge_ids(u);
    let ghost all = g@.out_ids(u);
    let ghost p = holds(g@, t);
    let mut out: Vec<EdgeId> = Vec::new();
    let mut i: usize = 0;
    proof {
        g.lemma_wf();
        model::lemma_edge_ids(g@.edges, model::leaves(u));
        reveal(Seq::filter);
        assert(out@ =~= all.take(0).filter(p));
    }
    while i < ids.len()
        invariant
            i <= ids@.len(),
            g.wf(),
            ids@ == all,
            p == holds(g@, t),
            forall|k: int|
                0 <= k < all.len() ==> (#[trigger] all[k]) < g@.edges.len()
                    && g@.edges[all[k] as int].src == u,
            out@ == all.take(i as int).filter(p),
            forall|k: int|
                0 <= k < out@.len() ==> (#[trigger] out@[k]) < g@.edges.len()
                    && g@.edges[out@[k] as int].src == u && g@.edges[out@[k] as int].holds_at(t),
        decreases ids@.len() - i,
    {
        proof {
            query::lemma_filter_step(all, i as int, p);
        }
        let eid: EdgeId = ids[i];
        if g.edge(eid).alive_at(t) {
            out.push(eid);
        }
        i += 1;
    }
    assert(all.take(all.len() as int) =~= all);
    out
}

/// Spreading activation under way, node by node and hop by hop. It says which
/// node comes next and is told which edges carried activation.
pub struct Spreading {
    t: Ts,
    depth: u32,
    hop: u32,
    at: usize,
    frontier: Vec<NodeId>,
    next: Vec<NodeId>,
    fired: Vec<EdgeId>,
}

/// The mathematical form of a [`Spreading`].
pub struct SpreadingV {
    pub t: Ts,
    /// Hops to do.
    pub depth: nat,
    /// Hops done.
    pub hop: nat,
    /// How many nodes of this hop have been visited.
    pub at: nat,
    /// The nodes that this hop starts from.
    pub frontier: Seq<NodeId>,
    /// The nodes that it has reached.
    pub next: Seq<NodeId>,
    /// The edges that have carried activation, in order.
    pub fired: Seq<EdgeId>,
}

impl View for Spreading {
    type V = SpreadingV;

    closed spec fn view(&self) -> SpreadingV {
        SpreadingV {
            t: self.t,
            depth: self.depth as nat,
            hop: self.hop as nat,
            at: self.at as nat,
            frontier: self.frontier@,
            next: self.next@,
            fired: self.fired@,
        }
    }
}

impl SpreadingV {
    /// Activation stays near the seeds: what a hop starts from lies within as
    /// many hops of them as were done, what it reaches within one more, and
    /// edges carry activation only while they hold, from a node that lies near
    /// the seeds too.
    pub open spec fn stays_near(self, g: GraphV, s: Set<NodeId>) -> bool {
        &&& forall|i: int|
            0 <= i < self.frontier.len() ==> (#[trigger] self.frontier[i]) < g.nodes.len()
                && backend::near(g, s, self.t, false, self.hop).contains(self.frontier[i])
        &&& forall|i: int|
            0 <= i < self.next.len() ==> (#[trigger] self.next[i]) < g.nodes.len()
                && backend::near(g, s, self.t, false, self.hop + 1).contains(self.next[i])
        &&& forall|i: int|
            0 <= i < self.fired.len() ==> (#[trigger] self.fired[i]) < g.edges.len()
                && g.edges[self.fired[i] as int].holds_at(self.t) && backend::near(
                g,
                s,
                self.t,
                false,
                self.hop,
            ).contains(g.edges[self.fired[i] as int].src)
    }

    /// The node that is being visited.
    pub open spec fn current(self) -> Option<NodeId> {
        if 0 < self.at <= self.frontier.len() && self.hop < self.depth {
            Some(self.frontier[self.at - 1])
        } else {
            None
        }
    }

    /// The state at the start of the next hop.
    pub open spec fn hopped(self) -> SpreadingV {
        SpreadingV {
            hop: self.hop + 1,
            at: 0,
            frontier: self.next,
            next: Seq::empty(),
            ..self
        }
    }

    /// The state when the next node is visited: another one of this hop, or the
    /// first of the next, while hops are left and lead anywhere.
    pub open spec fn moved(self) -> SpreadingV {
        if self.hop >= self.depth {
            self
        } else if self.at < self.frontier.len() {
            SpreadingV { at: self.at + 1, ..self }
        } else if self.next.len() == 0 || self.hop + 1 >= self.depth {
            SpreadingV { depth: self.hop + 1, ..self.hopped() }
        } else {
            SpreadingV { at: 1, ..self.hopped() }
        }
    }
}

/// A spreading goes through the nodes of each hop one by one, the first to the
/// last, and from one hop to the nodes that it reached; it ends with the hops or
/// where one reached nothing, and what fired stays recorded.
pub proof fn spreading_visits_each_hop_in_turn(v: SpreadingV)
    requires
        v.hop < v.depth,
    ensures
        v.moved().fired == v.fired,
        v.moved().t == v.t,
        v.at < v.frontier.len() ==> {
            &&& v.moved().current() == Some(v.frontier[v.at as int])
            &&& v.moved().at == v.at + 1
            &&& v.moved().frontier == v.frontier
            &&& v.moved().next == v.next
            &&& v.moved().hop == v.hop
            &&& v.moved().depth == v.depth
        },
        v.at >= v.frontier.len() && v.next.len() > 0 && v.hop + 1 < v.depth ==> {
            &&& v.moved().current() == Some(v.next[0])
            &&& v.moved().at == 1
            &&& v.moved().frontier == v.next
            &&& v.moved().next.len() == 0
            &&& v.moved().hop == v.hop + 1
            &&& v.moved().depth == v.depth
        },
        v.at >= v.frontier.len() && (v.next.len() == 0 || v.hop + 1 == v.depth) ==> {
            &&& v.moved().current() is None
            &&& v.moved().moved() == v.moved()
        },
{
}

/// Ending a hop keeps activation near the seeds.
proof fn lemma_hopped_near(v: SpreadingV, g: GraphV, s: Set<NodeId>)
    requires
        v.stays_near(g, s),
    ensures
        v.hopped().stays_near(g, s),
{
    backend::lemma_near_grows(g, s, v.t, false, v.hop, v.hop + 1);
}

impl Spreading {
    /// Starts at the seeds that are alive at `t`, for `depth` hops.
    pub fn start(g: &TemporalGraph, seeds: &Vec<String>, depth: u32, t: Ts) -> (res: Self)
        requires
            g.wf(),
        ensures
            res@ == (SpreadingV {
                t,
                depth: depth as nat,
                hop: 0,
                at: 0,
                frontier: seed_ids(g@, text::views(seeds@), t),
                next: Seq::empty(),
                fired: Seq::empty(),
            }),
            res@.stays_near(g@, backend::starts(g@, text::views(seeds@), t)),
            forall|id: NodeId| #[trigger]
                res@.frontier.contains(id) <==> backend::starts(
                    g@,
                    text::views(seeds@),
                    t,
                ).contains(id),
    {
        let ghost ss = text::views(seeds@);
        let mut frontier: Vec<NodeId> = Vec::new();
        let mut i: usize = 0;
        proof {
            g.lemma_wf();
        }
        assert(frontier@ =~= seed_ids(g@, ss.take(0), t));
        while i < seeds.len()
            invariant
                i <= seeds@.len(),
                g.wf(),
                g@.wf(),
                ss == text::views(seeds@),
                frontier@ == seed_ids(g@, ss.take(i as int), t),
                forall|k: int|
                    0 <= k < frontier@.len() ==> (#[trigger] frontier@[k]) < g@.nodes.len(),
            decreases seeds@.len() - i,
        {
            assert(ss.take(i + 1).drop_last() =~= ss.take(i as int));
            assert(ss.take(i + 1).last() == seeds@[i as int]@);
            match g.id_of(seeds[i].as_str()) {
                Some(id) => {
                    assert(id < g@.nodes.len());
                    if g.node(id).alive_at(t) {
                        frontier.push(id);
                    }
                },
                None => {},
            }
            i += 1;
        }
        assert(ss.take(ss.len() as int) =~= ss);
        proof {
            lemma_seed_ids(g@, ss, t);
            lemma_seeds_listed(g@, ss, t);
        }
        Spreading { t, depth, hop: 0, at: 0, frontier, next: Vec::new(), fired: Vec::new() }
    }

    /// The nodes that the first hop starts from, before any is visited.
    pub fn frontier(&self) -> (res: &Vec<NodeId>)
        ensures
            res@ == self@.frontier,
    {
        &self.frontier
    }

    /// The edges that have carried activation, in order.
    pub fn fired(&self) -> (res: &Vec<EdgeId>)
        ensures
            res@ == self@.fired,
    {
        &self.fired
    }

    /// Goes on to the next node, if there is one.
    pub fn visit_next(&mut self, g: &TemporalGraph) -> (res: Option<NodeId>)
        ensures
            final(self)@ == old(self)@.moved(),
            res == final(self)@.current(),
            forall|s: Set<NodeId>|
                #![trigger final(self)@.stays_near(g@, s)]
                old(self)@.stays_near(g@, s) ==> final(self)@.stays_near(g@, s),
    {
        if self.hop >= self.depth {
            return None;
        }
        if self.at >= self.frontier.len() {
            let mut next: Vec<NodeId> = Vec::new();
            std::mem::swap(&mut next, &mut self.next);
            self.frontier = next;
            self.hop = self.hop + 1;
            self.at = 0;
            proof {
                assert forall|s: Set<NodeId>|
                    #![trigger self@.stays_near(g@, s)]
                    old(self)@.stays_near(g@, s) implies self@.stays_near(g@, s) by {
                    lemma_hopped_near(old(self)@, g@, s);
                }
            }
            if self.frontier.len() == 0 || self.hop >= self.depth {
                self.depth = self.hop;
                return None;
            }
        }
        self.at = self.at + 1;
        Some(self.frontier[self.at - 1])
    }

    /// An edge from the node that is being visited carries activation. Where
    /// its end had none before, the next hop starts from there too.
    pub fn fire(&mut self, g: &TemporalGraph, eid: EdgeId, was_inactive: bool)
        requires
            g.wf(),
            eid < g@.edges.len(),
            g@.edges[eid as int].holds_at(old(self)@.t),
            old(self)@.current() == Some(g@.edges[eid as int].src),
        ensures
            final(self)@ == (SpreadingV {
                next: if was_inactive {
                    old(self)@.next.push(g@.edges[eid as int].dst)
                } else {
                    old(self)@.next
                },
                fired: old(self)@.fired.push(eid),
                ..old(self)@
            }),
            forall|s: Set<NodeId>|
                #![trigger final(self)@.stays_near(g@, s)]
                old(self)@.stays_near(g@, s) ==> final(self)@.stays_near(g@, s),
    {
        proof {
            g.lemma_wf();
        }
        let dst: NodeId = g.edge(eid).dst;
        if was_inactive {
            self.next.push(dst);
        }
        self.fired.push(eid);
        proof {
            assert forall|s: Set<NodeId>|
                #![trigger self@.stays_near(g@, s)]
                old(self)@.stays_near(g@, s) implies self@.stays_near(g@, s) by {
                let u = old(self)@.frontier[old(self)@.at - 1];
                let hop = self@.hop;
                assert(backend::near(g@, s, self@.t, false, hop).contains(u));
                assert(backend::leads(
                    g@,
                    backend::near(g@, s, self@.t, false, hop),
                    self@.t,
                    false,
                    eid as int,
                    dst,
                ));
                assert(backend::near(g@, s, self@.t, false, hop + 1).contains(dst));
                assert(g@.edges[eid as int].dst < g@.nodes.len());
            }
        }
    }
}

// ---------------------------------------------------------------------------
// Ranking
// ---------------------------------------------------------------------------

/// Whether a node comes before another: by activation, then by id.
pub open spec fn comes_before(a: (NodeId, u32), b: (NodeId, u32)) -> bool {
    a.1 > b.1 || (a.1 == b.1 && a.0 < b.0)
}

pub open spec fn positive() -> spec_fn(u32) -> bool {
    |x: u32| x > 0
}

/// `res` holds the `k` nodes with the most activation, in order: all that have
/// any where there are fewer.
pub open spec fn is_ranking(res: Seq<(NodeId, u32)>, acts: Seq<u32>, k: nat) -> bool {
    let count = acts.filter(positive()).len();
    &&& res.len() == (if count < k {
        count
    } else {
        k
    })
    &&& forall|i: int|
        0 <= i < res.len() ==> (#[trigger] res[i]).0 < acts.len() && res[i].1
            == acts[res[i].0 as int] && res[i].1 > 0
    &&& forall|i: int, j: int|
        0 <= i < j < res.len() ==> comes_before(#[trigger] res[i], #[trigger] res[j])
    &&& forall|id: int, i: int|
        0 <= id < acts.len() && #[trigger] acts[id] > 0 && 0 <= i < res.len() && (forall|j: int|
            0 <= j < res.len() ==> (#[trigger] res[j]).0 != id) ==> comes_before(
            #[trigger] res[i],
            (id as u32, acts[id]),
        )
}

/// The activations alone decide the ranking: the same activations rank the same
/// nodes in the same order, each time.
pub proof fn ranking_is_determined(
    a: Seq<(NodeId, u32)>,
    b: Seq<(NodeId, u32)>,
    acts: Seq<u32>,
    k: nat,
)
    requires
        is_ranking(a, acts, k),
        is_ranking(b, acts, k),
    ensures
        a == b,
{
    lemma_same_start(a, b, acts, k, a.len() as int);
    assert(a.take(a.len() as int) =~= a);
    assert(b.take(a.len() as int) =~= b);
}

proof fn lemma_same_start(
    a: Seq<(NodeId, u32)>,
    b: Seq<(NodeId, u32)>,
    acts: Seq<u32>,
    k: nat,
    n: int,
)
    requires
        is_ranking(a, acts, k),
        is_ranking(b, acts, k),
        0 <= n <= a.len(),
    ensures
        a.take(n) == b.take(n),
    decreases n,
{
    if n > 0 {
        lemma_same_start(a, b, acts, k, n - 1);
        lemma_not_before(a, b, acts, k, n - 1);
        lemma_not_before(b, a, acts, k, n - 1);
        assert(a[n - 1] == b[n - 1]);
        assert(a.take(n) =~= a.take(n - 1).push(a[n - 1]));
        assert(b.take(n) =~= b.take(n - 1).push(b[n - 1]));
    }
}

/// Where two rankings agree so far, what comes next in one does not come before
/// what comes next in the other.
proof fn lemma_not_before(
    a: Seq<(NodeId, u32)>,
    b: Seq<(NodeId, u32)>,
    acts: Seq<u32>,
    k: nat,
    n: int,
)
    requires
        is_ranking(a, acts, k),
        is_ranking(b, acts, k),
        0 <= n < a.len(),
        a.take(n) == b.take(n),
    ensures
        !comes_before(a[n], b[n]),
{
    if comes_before(a[n], b[n]) {
        let id = a[n].0 as int;
        assert forall|j: int| 0 <= j < b.len() implies (#[trigger] b[j]).0 != id by {
            if b[j].0 == id {
                assert(b[j] == a[n]);
                if j < n {
                    assert(a.take(n)[j] == b.take(n)[j]);
                    assert(comes_before(a[j], a[n]));
                } else if j > n {
                    assert(comes_before(b[n], b[j]));
                }
            }
        }
        assert(acts[id] > 0);
        assert(comes_before(b[n], (id as u32, acts[id])));
    }
}

/// The number by which a node is sorted: more activation comes first, then the
/// smaller id.
spec fn sort_key(id: int, act: u32) -> int {
    (0xffff_ffff - act) * 0x1_0000_0000 + id
}

proof fn lemma_sort_key(a: int, x: u32, b: int, y: u32)
    requires
        0 <= a <= u32::MAX,
        0 <= b <= u32::MAX,
    ensures
        0 <= sort_key(a, x) <= u64::MAX,
        (sort_key(a, x) < sort_key(b, y)) == comes_before((a as u32, x), (b as u32, y)),
        (sort_key(a, x) == sort_key(b, y)) == (a == b && x == y),
        sort_key(a, x) / 0x1_0000_0000 == 0xffff_ffff - x,
        sort_key(a, x) % 0x1_0000_0000 == a,
{
}

/// The keys of the nodes among the first `n` that have activation.
spec fn keys(acts: Seq<u32>, n: int) -> Seq<u64>
    decreases n,
{
    if n <= 0 {
        Seq::empty()
    } else if acts[n - 1] > 0 {
        keys(acts, n - 1).push(sort_key(n - 1, acts[n - 1]) as u64)
    } else {
        keys(acts, n - 1)
    }
}

spec fn is_key_of(x: u64, acts: Seq<u32>, id: int) -> bool {
    0 <= id < acts.len() && acts[id] > 0 && x == sort_key(id, acts[id])
}

proof fn lemma_keys(acts: Seq<u32>, n: int)
    requires
        0 <= n <= acts.len() <= u32::MAX,
    ensures
        keys(acts, n).len() == acts.take(n).filter(positive()).len(),
        keys(acts, n).no_duplicates(),
        forall|x: u64| #[trigger]
            keys(acts, n).contains(x) ==> exists|id: int| 0 <= id < n && is_key_of(x, acts, id),
        forall|id: int|
            0 <= id < n && #[trigger] acts[id] > 0 ==> keys(acts, n).contains(
                sort_key(id, acts[id]) as u64,
            ),
    decreases n,
{
    reveal(Seq::filter);
    if n > 0 {
        lemma_keys(acts, n - 1);
        query::lemma_filter_step(acts, n - 1, positive());
        let a = keys(acts, n - 1);
        let b = keys(acts, n);
        let k = sort_key(n - 1, acts[n - 1]) as u64;
        lemma_sort_key(n - 1, acts[n - 1], n - 1, acts[n - 1]);
        if acts[n - 1] > 0 {
            assert(!a.contains(k)) by {
                if a.contains(k) {
                    let id = choose|id: int| 0 <= id < n - 1 && is_key_of(k, acts, id);
                    lemma_sort_key(id, acts[id], n - 1, acts[n - 1]);
                }
            }
            assert forall|i: int, j: int| 0 <= i < j < b.len() implies b[i] != b[j] by {
                if j == a.len() {
                    assert(a.contains(a[i]));
                }
            }
        }
        assert forall|x: u64| #[trigger] b.contains(x) implies exists|id: int|
            0 <= id < n && is_key_of(x, acts, id) by {
            let i = b.index_of(x);
            if i < a.len() {
                assert(a[i] == x);
                assert(a.contains(x));
                let id = choose|id: int| 0 <= id < n - 1 && is_key_of(x, acts, id);
                assert(is_key_of(x, acts, id));
            } else {
                assert(is_key_of(x, acts, n - 1));
            }
        }
        assert forall|id: int| 0 <= id < n && #[trigger] acts[id] > 0 implies b.contains(
            sort_key(id, acts[id]) as u64,
        ) by {
            if id < n - 1 {
                let x = sort_key(id, acts[id]) as u64;
                let i = a.index_of(x);
                assert(b[i] == x);
            } else {
                assert(b[a.len() as int] == k);
            }
        }
    } else {
        assert(acts.take(0).filter(positive()) =~= Seq::empty());
    }
}

proof fn lemma_decode(x: u64, acts: Seq<u32>)
    requires
        exists|id: int| 0 <= id < acts.len() && is_key_of(x, acts, id),
        acts.len() <= u32::MAX,
    ensures
        is_key_of(x, acts, x as int % 0x1_0000_0000),
        acts[x as int % 0x1_0000_0000] == 0xffff_ffff - x as int / 0x1_0000_0000,
        x as int % 0x1_0000_0000 < acts.len(),
{
    let id = choose|id: int| 0 <= id < acts.len() && is_key_of(x, acts, id);
    lemma_sort_key(id, acts[id], id, acts[id]);
}

/// The `k` nodes with the most activation.
pub fn ranked(acts: &Vec<u32>, k: usize) -> (res: Vec<(NodeId, u32)>)
    requires
        acts@.len() <= u32::MAX,
    ensures
        is_ranking(res@, acts@, k as nat),
{
    let n: usize = acts.len();
    let mut ks: Vec<u64> = Vec::new();
    let mut i: usize = 0;
    while i < n
        invariant
            i <= n,
            n == acts@.len(),
            n <= u32::MAX,
            ks@ == keys(acts@, i as int),
        decreases n - i,
    {
        let a: u32 = acts[i];
        if a > 0 {
            proof {
                lemma_sort_key(i as int, a, i as int, a);
            }
            let key: u64 = (0xffff_ffffu64 - a as u64) * 0x1_0000_0000 + i as u64;
            ks.push(key);
        }
        i += 1;
    }
    proof {
        lemma_keys(acts@, n as int);
        assert(acts@.take(n as int) =~= acts@);
    }
    let sorted = sort::sorted(&ks);
    proof {
        sort::lemma_sorted_members(sorted@, ks@);
        ks@.lemma_multiset_has_no_duplicates();
        sorted@.lemma_multiset_has_no_duplicates_conv();
    }
    let len: usize = if sorted.len() < k {
        sorted.len()
    } else {
        k
    };
    let mut out: Vec<(NodeId, u32)> = Vec::new();
    let mut j: usize = 0;
    while j < len
        invariant
            j <= len <= sorted@.len(),
            acts@.len() <= u32::MAX,
            forall|x: u64| sorted@.contains(x) == keys(acts@, acts@.len() as int).contains(x),
            forall|x: u64| #[trigger]
                keys(acts@, acts@.len() as int).contains(x) ==> exists|id: int|
                    0 <= id < acts@.len() && is_key_of(x, acts@, id),
            out@.len() == j,
            forall|i: int|
                0 <= i < j ==> is_key_of(sorted@[i], acts@, (#[trigger] out@[i]).0 as int)
                    && out@[i].1 == acts@[out@[i].0 as int],
        decreases len - j,
    {
        let x: u64 = sorted[j];
        proof {
            assert(sorted@.contains(sorted@[j as int]));
            assert(keys(acts@, acts@.len() as int).contains(x));
            lemma_decode(x, acts@);
        }
        let id: u32 = (x % 0x1_0000_0000) as u32;
        let a: u32 = (0xffff_ffff - x / 0x1_0000_0000) as u32;
        out.push((id, a));
        j += 1;
    }
    proof {
        let s = sorted@;
        assert forall|i: int, j: int| 0 <= i < j < out@.len() implies comes_before(
            #[trigger] out@[i],
            #[trigger] out@[j],
        ) by {
            assert(s[i] != s[j]);
            lemma_sort_key(
                out@[i].0 as int,
                out@[i].1,
                out@[j].0 as int,
                out@[j].1,
            );
        }
        assert forall|id: int, i: int|
            0 <= id < acts@.len() && #[trigger] acts@[id] > 0 && 0 <= i < out@.len() && (forall|
                j: int,
            |
                0 <= j < out@.len() ==> (#[trigger] out@[j]).0 != id) implies comes_before(
            #[trigger] out@[i],
            (id as u32, acts@[id]),
        ) by {
            let x = sort_key(id, acts@[id]) as u64;
            lemma_sort_key(id, acts@[id], id, acts@[id]);
            assert(s.contains(x));
            let p = s.index_of(x);
            if p < out@.len() {
                let q = out@[p].0;
                lemma_sort_key(q as int, acts@[q as int], id, acts@[id]);
                assert(false);
            }
            assert(s[i] <= s[p]);
            assert(s[i] != s[p]);
            lemma_sort_key(out@[i].0 as int, out@[i].1, id, acts@[id]);
        }
    }
    out
}

// ---------------------------------------------------------------------------
// Forgetting
// ---------------------------------------------------------------------------

/// How many of the first `n` edges are live.
pub open spec fn live_count(dead: Seq<bool>, n: int) -> nat
    decreases n,
{
    if n <= 0 {
        0
    } else {
        live_count(dead, n - 1) + if dead[n - 1] {
            0nat
        } else {
            1nat
        }
    }
}

/// How many edges are live.
pub fn count_live(dead: &Vec<bool>) -> (res: usize)
    ensures
        res == live_count(dead@, dead@.len() as int),
{
    let mut n: usize = 0;
    let mut i: usize = 0;
    while i < dead.len()
        invariant
            n <= i <= dead@.len(),
            n == live_count(dead@, i as int),
        decreases dead@.len() - i,
    {
        if !dead[i] {
            n += 1;
        }
        i += 1;
    }
    n
}

/// The marks after pruning: a live edge whose weight is too small is masked. It
/// is still a fact; it is only not surfaced.
pub open spec fn pruned_marks(dead: Seq<bool>, below: Seq<bool>) -> Seq<bool> {
    Seq::new(dead.len(), |i: int| dead[i] || below[i])
}

/// Masks live edges whose weight is too small. Returns how many were masked.
pub fn prune(dead: &mut Vec<bool>, below: &Vec<bool>) -> (res: usize)
    requires
        below@.len() == old(dead)@.len(),
    ensures
        final(dead)@ == pruned_marks(old(dead)@, below@),
        res == live_count(old(dead)@, old(dead)@.len() as int) - live_count(
            final(dead)@,
            final(dead)@.len() as int,
        ),
{
    let n: usize = dead.len();
    let mut count: usize = 0;
    let mut i: usize = 0;
    while i < n
        invariant
            i <= n,
            n == dead@.len(),
            n == old(dead)@.len(),
            n == below@.len(),
            count <= i,
            forall|k: int|
                0 <= k < n ==> #[trigger] dead@[k] == (if k < i {
                    old(dead)@[k] || below@[k]
                } else {
                    old(dead)@[k]
                }),
            count == live_count(old(dead)@, i as int) - live_count(dead@, i as int),
        decreases n - i,
    {
        let ghost before = dead@;
        if !dead[i] && below[i] {
            dead.set(i, true);
            count += 1;
        }
        proof {
            lemma_live_same(before, dead@, i as int);
        }
        i += 1;
    }
    assert(dead@ =~= pruned_marks(old(dead)@, below@));
    count
}

proof fn lemma_live_same(a: Seq<bool>, b: Seq<bool>, n: int)
    requires
        n <= a.len(),
        n <= b.len(),
        forall|k: int| 0 <= k < n ==> #[trigger] a[k] == b[k],
    ensures
        live_count(a, n) == live_count(b, n),
    decreases n,
{
    if n > 0 {
        lemma_live_same(a, b, n - 1);
        assert(a[n - 1] == b[n - 1]);
    }
}

/// Pruning brings no edge back.
pub proof fn pruning_revives_nothing(dead: Seq<bool>, below: Seq<bool>, i: int)
    requires
        below.len() == dead.len(),
        0 <= i < dead.len(),
        dead[i],
    ensures
        pruned_marks(dead, below)[i],
{
}

/// The weights of the live edges among the first `n`.
pub open spec fn live_weights(dead: Seq<bool>, weights: Seq<u32>, n: int) -> Seq<u64>
    decreases n,
{
    if n <= 0 {
        Seq::empty()
    } else if dead[n - 1] {
        live_weights(dead, weights, n - 1)
    } else {
        live_weights(dead, weights, n - 1).push(weights[n - 1] as u64)
    }
}

/// The weight above which edges are protected: the one at position `q` in
/// ascending order, or at the last.
pub open spec fn is_threshold(thr: u32, live: Seq<u64>, q: nat) -> bool {
    if live.len() == 0 {
        thr == 0x7f7f_ffff
    } else {
        exists|s: Seq<u64>| #[trigger]
            sort::ordered(s) && s.to_multiset() == live.to_multiset() && s.len() == live.len()
                && thr == s[if q < live.len() {
                q as int
            } else {
                live.len() - 1
            }]
    }
}

/// The weight above which edges are protected while the graph sleeps. With no
/// live edge it is the largest finite weight.
pub fn protection(dead: &Vec<bool>, weights: &Vec<u32>, q: usize) -> (res: u32)
    requires
        weights@.len() == dead@.len(),
    ensures
        is_threshold(res, live_weights(dead@, weights@, dead@.len() as int), q as nat),
{
    let n: usize = dead.len();
    let mut live: Vec<u64> = Vec::new();
    let mut i: usize = 0;
    while i < n
        invariant
            i <= n,
            n == dead@.len(),
            n == weights@.len(),
            live@ == live_weights(dead@, weights@, i as int),
            forall|k: int| 0 <= k < live@.len() ==> #[trigger] live@[k] <= u32::MAX,
        decreases n - i,
    {
        if !dead[i] {
            live.push(weights[i] as u64);
        }
        i += 1;
    }
    if live.len() == 0 {
        return 0x7f7f_ffff;
    }
    let s = sort::sorted(&live);
    let at: usize = if q < s.len() {
        q
    } else {
        s.len() - 1
    };
    proof {
        sort::lemma_sorted_members(s@, live@);
        assert(s@.contains(s@[at as int]));
        let k = live@.index_of(s@[at as int]);
        assert(live@[k] <= u32::MAX);
        assert(sort::ordered(s@));
    }
    s[at] as u32
}

/// What sleep comes to: edges masked, and edges kept because they are
/// protected.
#[derive(Debug, Clone, Copy, PartialEq, Eq, Structural)]
pub struct SleepCounts {
    pub downscaled: usize,
    pub pruned: usize,
    pub protected: usize,
}

pub open spec fn sleep_prunes(dead: bool, weight: u32, below: bool, thr: u32) -> bool {
    !dead && below && weight <= thr
}

pub open spec fn sleep_protects(dead: bool, weight: u32, thr: u32) -> bool {
    !dead && weight > thr
}

/// The marks after sleep: a live edge whose weight falls too low is masked,
/// unless it is protected.
pub open spec fn slept_marks(dead: Seq<bool>, weights: Seq<u32>, below: Seq<bool>, thr: u32) -> Seq<
    bool,
> {
    Seq::new(dead.len(), |i: int| dead[i] || sleep_prunes(dead[i], weights[i], below[i], thr))
}

pub open spec fn sleep_counts(
    dead: Seq<bool>,
    weights: Seq<u32>,
    below: Seq<bool>,
    thr: u32,
    n: int,
) -> (nat, nat, nat)
    decreases n,
{
    if n <= 0 {
        (0, 0, 0)
    } else {
        let (d, p, k) = sleep_counts(dead, weights, below, thr, n - 1);
        (
            d + if dead[n - 1] {
                0nat
            } else {
                1nat
            },
            p + if sleep_prunes(dead[n - 1], weights[n - 1], below[n - 1], thr) {
                1nat
            } else {
                0nat
            },
            k + if sleep_protects(dead[n - 1], weights[n - 1], thr) {
                1nat
            } else {
                0nat
            },
        )
    }
}

/// Masks what sleep forgets. `weights` are those before they are scaled down,
/// and `below` says which fall too low by it.
pub fn sleep_marks(
    dead: &mut Vec<bool>,
    weights: &Vec<u32>,
    below: &Vec<bool>,
    thr: u32,
) -> (res: SleepCounts)
    requires
        weights@.len() == old(dead)@.len(),
        below@.len() == old(dead)@.len(),
    ensures
        final(dead)@ == slept_marks(old(dead)@, weights@, below@, thr),
        (res.downscaled as nat, res.pruned as nat, res.protected as nat) == sleep_counts(
            old(dead)@,
            weights@,
            below@,
            thr,
            old(dead)@.len() as int,
        ),
{
    let n: usize = dead.len();
    let mut c = SleepCounts { downscaled: 0, pruned: 0, protected: 0 };
    let mut i: usize = 0;
    while i < n
        invariant
            i <= n,
            n == dead@.len(),
            n == old(dead)@.len(),
            n == weights@.len(),
            n == below@.len(),
            c.downscaled <= i,
            c.pruned <= i,
            c.protected <= i,
            (c.downscaled as nat, c.pruned as nat, c.protected as nat) == sleep_counts(
                old(dead)@,
                weights@,
                below@,
                thr,
                i as int,
            ),
            forall|k: int|
                0 <= k < n ==> #[trigger] dead@[k] == (if k < i {
                    old(dead)@[k] || sleep_prunes(old(dead)@[k], weights@[k], below@[k], thr)
                } else {
                    old(dead)@[k]
                }),
        decreases n - i,
    {
        if !dead[i] {
            c.downscaled = c.downscaled + 1;
            if weights[i] > thr {
                c.protected = c.protected + 1;
            } else if below[i] {
                dead.set(i, true);
                c.pruned = c.pruned + 1;
            }
        }
        i += 1;
    }
    assert(dead@ =~= slept_marks(old(dead)@, weights@, below@, thr));
    c
}

/// Sleep masks no edge that is protected.
pub proof fn sleep_keeps_protected_edges(
    dead: Seq<bool>,
    weights: Seq<u32>,
    below: Seq<bool>,
    thr: u32,
    i: int,
)
    requires
        weights.len() == dead.len(),
        below.len() == dead.len(),
        0 <= i < dead.len(),
        !dead[i],
        weights[i] > thr,
    ensures
        !slept_marks(dead, weights, below, thr)[i],
{
}

/// The live records of edges that leave a node: those that share its budget.
pub fn live_out(g: &TemporalGraph, u: NodeId, dead: &Vec<bool>) -> (res: Vec<EdgeId>)
    requires
        g.wf(),
        u < g@.nodes.len(),
    ensures
        res@ == g@.out_ids(u).filter(is_live(dead@)),
{
    let ids = g.out_edge_ids(u);
    let ghost all = g@.out_ids(u);
    let ghost p = is_live(dead@);
    let mut out: Vec<EdgeId> = Vec::new();
    let mut i: usize = 0;
    proof {
        reveal(Seq::filter);
        assert(out@ =~= all.take(0).filter(p));
    }
    while i < ids.len()
        invariant
            i <= ids@.len(),
            ids@ == all,
            p == is_live(dead@),
            out@ == all.take(i as int).filter(p),
        decreases ids@.len() - i,
    {
        proof {
            query::lemma_filter_step(all, i as int, p);
        }
        let eid: EdgeId = ids[i];
        if (eid as usize) < dead.len() && !dead[eid as usize] {
            out.push(eid);
        }
        i += 1;
    }
    assert(all.take(all.len() as int) =~= all);
    out
}

/// Whether a node has a live edge with weight to share its budget.
pub open spec fn has_budget(g: GraphV, u: NodeId, dead: Seq<bool>, weights: Seq<u32>) -> bool {
    exists|i: int|
        0 <= i < g.out_ids(u).len() && is_live(dead)(#[trigger] g.out_ids(u)[i])
            && weights[g.out_ids(u)[i] as int] > 0
}

/// The nodes among the first `n` whose live edges have weight, in the order of
/// their ids.
pub open spec fn budgeted_of(g: GraphV, dead: Seq<bool>, weights: Seq<u32>, n: int) -> Seq<NodeId>
    decreases n,
{
    if n <= 0 {
        Seq::empty()
    } else if has_budget(g, (n - 1) as u32, dead, weights) {
        budgeted_of(g, dead, weights, n - 1).push((n - 1) as u32)
    } else {
        budgeted_of(g, dead, weights, n - 1)
    }
}

/// The nodes whose live edges have weight: those that are scaled to a budget.
pub fn budgeted(g: &TemporalGraph, dead: &Vec<bool>, weights: &Vec<u32>) -> (res: Vec<NodeId>)
    requires
        g.wf(),
        weights@.len() == dead@.len(),
    ensures
        res@ == budgeted_of(g@, dead@, weights@, g@.nodes.len() as int),
{
    let mut out: Vec<NodeId> = Vec::new();
    let n: usize = g.node_count();
    let mut u: usize = 0;
    proof {
        g.lemma_wf();
    }
    while u < n
        invariant
            u <= n,
            n == g@.nodes.len(),
            n <= u32::MAX,
            g.wf(),
            weights@.len() == dead@.len(),
            out@ == budgeted_of(g@, dead@, weights@, u as int),
        decreases n - u,
    {
        let ids = g.out_edge_ids(u as u32);
        let ghost all = g@.out_ids(u as u32);
        let mut found = false;
        let mut i: usize = 0;
        while i < ids.len()
            invariant
                i <= ids@.len(),
                ids@ == all,
                all == g@.out_ids(u as u32),
                weights@.len() == dead@.len(),
                found == exists|k: int|
                    0 <= k < i && is_live(dead@)(#[trigger] all[k]) && weights@[all[k] as int] > 0,
            decreases ids@.len() - i,
        {
            let eid: usize = ids[i] as usize;
            if eid < dead.len() && !dead[eid] && weights[eid] > 0 {
                assert(is_live(dead@)(all[i as int]));
                found = true;
            }
            i += 1;
        }
        if found {
            out.push(u as u32);
        }
        u += 1;
    }
    out
}

/// What a consolidation came to.
#[derive(Debug, Clone, Copy, PartialEq, Eq, Structural)]
pub struct ConsolidationStats {
    pub live_edges: usize,
    pub pruned: usize,
    pub renormalized_sources: usize,
    pub conflicts_found: usize,
}

/// What a consolidation came to, given the marks after it, how many edges it
/// masked, which nodes it scaled and which contradictions it found.
pub fn consolidation_stats(
    dead: &Vec<bool>,
    pruned: usize,
    scaled: &Vec<NodeId>,
    conflicts: &Vec<Conflict>,
) -> (res: ConsolidationStats)
    ensures
        res.live_edges == live_count(dead@, dead@.len() as int),
        res.pruned == pruned,
        res.renormalized_sources == scaled@.len(),
        res.conflicts_found == conflicts@.len(),
{
    ConsolidationStats {
        live_edges: count_live(dead),
        pruned,
        renormalized_sources: scaled.len(),
        conflicts_found: conflicts.len(),
    }
}

/// Whether an edge may be reinforced: it has state, and is not masked.
pub fn touchable(dead: &Vec<bool>, eid: EdgeId) -> (res: bool)
    ensures
        res == is_live(dead@)(eid),
{
    (eid as usize) < dead.len() && !dead[eid as usize]
}

pub open spec fn is_live(dead: Seq<bool>) -> spec_fn(EdgeId) -> bool {
    |eid: EdgeId| eid < dead.len() && !dead[eid as int]
}

// ---------------------------------------------------------------------------
// Contradictions
// ---------------------------------------------------------------------------

/// A source that has several open edges of a kind that allows one.
pub struct Conflict {
    pub src: String,
    pub kind: String,
    /// The end of the edge with the most weight.
    pub winner_dst: String,
    /// The retirements of the others.
    pub superseded: Vec<Op>,
}

/// The mathematical form of a [`Conflict`].
pub struct ConflictV {
    pub src: Seq<char>,
    pub kind: Seq<char>,
    pub winner_dst: Seq<char>,
    pub superseded: Seq<OpV>,
}

impl View for Conflict {
    type V = ConflictV;

    open spec fn view(&self) -> ConflictV {
        ConflictV {
            src: self.src@,
            kind: self.kind@,
            winner_dst: self.winner_dst@,
            superseded: snapshot::op_views(self.superseded@),
        }
    }
}

/// Whether a record is open and of a kind that allows one edge.
pub open spec fn functional(g: GraphV, kinds: Seq<Seq<char>>) -> spec_fn(EdgeId) -> bool {
    |eid: EdgeId|
        g.edges[eid as int].valid_to == T_MAX && kinds.contains(
            g.kinds[g.edges[eid as int].kind_id as int],
        )
}

pub open spec fn of_kind(g: GraphV, kind_id: u32) -> spec_fn(EdgeId) -> bool {
    |eid: EdgeId| g.edges[eid as int].kind_id == kind_id
}

/// The kinds of records, each once, in the order in which they come.
pub open spec fn kinds_in(g: GraphV, eids: Seq<EdgeId>) -> Seq<u32>
    decreases eids.len(),
{
    if eids.len() == 0 {
        Seq::empty()
    } else {
        let before = kinds_in(g, eids.drop_last());
        let k = g.edges[eids.last() as int].kind_id;
        if before.contains(k) {
            before
        } else {
            before.push(k)
        }
    }
}

/// The first record with the most weight.
pub open spec fn heaviest(weights: Seq<u32>, eids: Seq<EdgeId>) -> EdgeId
    decreases eids.len(),
{
    if eids.len() <= 1 {
        eids[0]
    } else {
        let best = heaviest(weights, eids.drop_last());
        if weights[eids.last() as int] > weights[best as int] {
            eids.last()
        } else {
            best
        }
    }
}

pub open spec fn other_record(best: EdgeId) -> spec_fn(EdgeId) -> bool {
    |eid: EdgeId| eid != best
}

pub open spec fn retiring(g: GraphV, ts: Ts) -> spec_fn(EdgeId) -> OpV {
    |eid: EdgeId|
        OpV::RetireEdge {
            src: g.nodes[g.edges[eid as int].src as int].name,
            dst: g.nodes[g.edges[eid as int].dst as int].name,
            kind: g.kinds[g.edges[eid as int].kind_id as int],
            ts,
        }
}

/// The contradiction among records of one source and one kind, if there is one.
pub open spec fn conflict_among(g: GraphV, group: Seq<EdgeId>, weights: Seq<u32>, ts: Ts) -> Option<
    ConflictV,
> {
    if group.len() < 2 {
        None
    } else {
        let best = heaviest(weights, group);
        let e = g.edges[best as int];
        Some(
            ConflictV {
                src: g.nodes[e.src as int].name,
                kind: g.kinds[e.kind_id as int],
                winner_dst: g.nodes[e.dst as int].name,
                superseded: group.filter(other_record(best)).map_values(retiring(g, ts)),
            },
        )
    }
}

/// The contradictions among the records of one source, for the first `n` of
/// their kinds.
pub open spec fn conflicts_at(
    g: GraphV,
    eids: Seq<EdgeId>,
    ks: Seq<u32>,
    weights: Seq<u32>,
    ts: Ts,
) -> Seq<ConflictV>
    decreases ks.len(),
{
    if ks.len() == 0 {
        Seq::empty()
    } else {
        let before = conflicts_at(g, eids, ks.drop_last(), weights, ts);
        match conflict_among(g, eids.filter(of_kind(g, ks.last())), weights, ts) {
            Some(c) => before.push(c),
            None => before,
        }
    }
}

/// The contradictions of the first `n` nodes.
pub open spec fn conflicts_of(
    g: GraphV,
    kinds: Seq<Seq<char>>,
    weights: Seq<u32>,
    ts: Ts,
    n: int,
) -> Seq<ConflictV>
    decreases n,
{
    if n <= 0 {
        Seq::empty()
    } else {
        let eids = g.out_ids((n - 1) as u32).filter(functional(g, kinds));
        conflicts_of(g, kinds, weights, ts, n - 1) + conflicts_at(
            g,
            eids,
            kinds_in(g, eids),
            weights,
            ts,
        )
    }
}

pub open spec fn conflict_views(s: Seq<Conflict>) -> Seq<ConflictV> {
    s.map_values(|c: Conflict| c@)
}

fn holds_text(l: &Vec<String>, s: &str) -> (res: bool)
    ensures
        res == text::views(l@).contains(s@),
{
    let ghost vs = text::views(l@);
    let mut i: usize = 0;
    while i < l.len()
        invariant
            i <= l@.len(),
            vs == text::views(l@),
            forall|j: int| 0 <= j < i ==> vs[j] != s@,
        decreases l@.len() - i,
    {
        assert(vs[i as int] == l@[i as int]@);
        if same_text(l[i].as_str(), s) {
            return true;
        }
        i += 1;
    }
    false
}

/// Records of the graph.
spec fn in_graph(g: GraphV, eids: Seq<EdgeId>) -> bool {
    forall|i: int| 0 <= i < eids.len() ==> (#[trigger] eids[i]) < g.edges.len()
}

fn functional_out(g: &TemporalGraph, u: NodeId, kinds: &Vec<String>) -> (res: Vec<EdgeId>)
    requires
        g.wf(),
        u < g@.nodes.len(),
    ensures
        res@ == g@.out_ids(u).filter(functional(g@, text::views(kinds@))),
        in_graph(g@, res@),
{
    let ids = g.out_edge_ids(u);
    let ghost all = g@.out_ids(u);
    let ghost p = functional(g@, text::views(kinds@));
    let mut out: Vec<EdgeId> = Vec::new();
    let mut i: usize = 0;
    proof {
        g.lemma_wf();
        model::lemma_edge_ids(g@.edges, model::leaves(u));
        reveal(Seq::filter);
        assert(out@ =~= all.take(0).filter(p));
    }
    while i < ids.len()
        invariant
            i <= ids@.len(),
            g.wf(),
            g@.wf(),
            ids@ == all,
            p == functional(g@, text::views(kinds@)),
            forall|k: int| 0 <= k < all.len() ==> (#[trigger] all[k]) < g@.edges.len(),
            out@ == all.take(i as int).filter(p),
            in_graph(g@, out@),
        decreases ids@.len() - i,
    {
        proof {
            query::lemma_filter_step(all, i as int, p);
        }
        let eid: EdgeId = ids[i];
        let e = *g.edge(eid);
        assert(g@.edges[eid as int].kind_id < g@.kinds.len());
        if e.valid_to == T_MAX && holds_text(kinds, g.kind_str(e.kind_id)) {
            out.push(eid);
        }
        i += 1;
    }
    assert(all.take(all.len() as int) =~= all);
    out
}

fn kinds_of(g: &TemporalGraph, eids: &Vec<EdgeId>) -> (res: Vec<u32>)
    requires
        g.wf(),
        in_graph(g@, eids@),
    ensures
        res@ == kinds_in(g@, eids@),
{
    let mut out: Vec<u32> = Vec::new();
    let mut i: usize = 0;
    assert(eids@.take(0) =~= Seq::empty());
    while i < eids.len()
        invariant
            i <= eids@.len(),
            in_graph(g@, eids@),
            out@ == kinds_in(g@, eids@.take(i as int)),
        decreases eids@.len() - i,
    {
        assert(eids@.take(i + 1).drop_last() =~= eids@.take(i as int));
        let k: u32 = g.edge(eids[i]).kind_id;
        let mut known = false;
        let mut j: usize = 0;
        while j < out.len()
            invariant
                j <= out@.len(),
                known == out@.take(j as int).contains(k),
            decreases out@.len() - j,
        {
            proof {
                let a = out@.take(j as int);
                let b = out@.take(j + 1);
                assert(b[j as int] == out@[j as int]);
                if a.contains(k) {
                    assert(b[a.index_of(k)] == k);
                }
                if b.contains(k) && out@[j as int] != k {
                    assert(a[b.index_of(k)] == k);
                }
            }
            if out[j] == k {
                known = true;
            }
            j += 1;
        }
        assert(out@.take(out@.len() as int) =~= out@);
        if !known {
            out.push(k);
        }
        i += 1;
    }
    assert(eids@.take(eids@.len() as int) =~= eids@);
    out
}

fn of_one_kind(g: &TemporalGraph, eids: &Vec<EdgeId>, kind_id: u32) -> (res: Vec<EdgeId>)
    requires
        in_graph(g@, eids@),
    ensures
        res@ == eids@.filter(of_kind(g@, kind_id)),
        in_graph(g@, res@),
{
    let ghost all = eids@;
    let ghost p = of_kind(g@, kind_id);
    let mut out: Vec<EdgeId> = Vec::new();
    let mut i: usize = 0;
    proof {
        reveal(Seq::filter);
        assert(out@ =~= all.take(0).filter(p));
    }
    while i < eids.len()
        invariant
            i <= eids@.len(),
            eids@ == all,
            in_graph(g@, all),
            p == of_kind(g@, kind_id),
            out@ == all.take(i as int).filter(p),
            in_graph(g@, out@),
        decreases eids@.len() - i,
    {
        proof {
            query::lemma_filter_step(all, i as int, p);
            assert(all[i as int] < g@.edges.len());
        }
        if g.edge(eids[i]).kind_id == kind_id {
            out.push(eids[i]);
        }
        i += 1;
    }
    assert(all.take(all.len() as int) =~= all);
    out
}

fn heaviest_of(weights: &Vec<u32>, eids: &Vec<EdgeId>) -> (res: EdgeId)
    requires
        eids@.len() > 0,
        forall|i: int| 0 <= i < eids@.len() ==> (#[trigger] eids@[i]) < weights@.len(),
    ensures
        res == heaviest(weights@, eids@),
        eids@.contains(res),
{
    let mut best: EdgeId = eids[0];
    let mut i: usize = 1;
    assert(eids@.take(1)[0] == eids@[0]);
    while i < eids.len()
        invariant
            1 <= i <= eids@.len(),
            forall|i: int| 0 <= i < eids@.len() ==> (#[trigger] eids@[i]) < weights@.len(),
            best == heaviest(weights@, eids@.take(i as int)),
            eids@.contains(best),
        decreases eids@.len() - i,
    {
        assert(eids@.take(i + 1).drop_last() =~= eids@.take(i as int));
        assert(eids@.take(i + 1).last() == eids@[i as int]);
        let eid: EdgeId = eids[i];
        assert(eids@[eids@.index_of(best)] == best);
        if weights[eid as usize] > weights[best as usize] {
            best = eid;
        }
        i += 1;
    }
    assert(eids@.take(eids@.len() as int) =~= eids@);
    best
}

/// The contradiction among records of one source and one kind.
fn conflict_of(g: &TemporalGraph, group: &Vec<EdgeId>, weights: &Vec<u32>, ts: Ts) -> (res: Option<
    Conflict,
>)
    requires
        g.wf(),
        in_graph(g@, group@),
        weights@.len() == g@.edges.len(),
    ensures
        match res {
            Some(c) => conflict_among(g@, group@, weights@, ts) == Some(c@),
            None => conflict_among(g@, group@, weights@, ts) is None,
        },
{
    if group.len() < 2 {
        return None;
    }
    proof {
        g.lemma_wf();
    }
    let best: EdgeId = heaviest_of(weights, group);
    assert(group@[group@.index_of(best)] == best);
    let e = *g.edge(best);
    assert(g@.edges[best as int].src < g@.nodes.len());
    let ghost all = group@;
    let ghost p = other_record(best);
    let ghost f = retiring(g@, ts);
    let mut superseded: Vec<Op> = Vec::new();
    let mut i: usize = 0;
    proof {
        reveal(Seq::filter);
        assert(snapshot::op_views(superseded@) =~= all.take(0).filter(p).map_values(f));
    }
    while i < group.len()
        invariant
            i <= group@.len(),
            g.wf(),
            g@.wf(),
            group@ == all,
            in_graph(g@, all),
            p == other_record(best),
            f == retiring(g@, ts),
            snapshot::op_views(superseded@) == all.take(i as int).filter(p).map_values(f),
        decreases group@.len() - i,
    {
        let eid: EdgeId = group[i];
        proof {
            query::lemma_filter_step(all, i as int, p);
            query::lemma_map_push(all.take(i as int).filter(p), eid, f);
            assert(all[i as int] < g@.edges.len());
        }
        if eid != best {
            let x = *g.edge(eid);
            assert(g@.edges[eid as int].src < g@.nodes.len());
            let op = Op::RetireEdge {
                src: g.node_name(x.src).to_owned(),
                dst: g.node_name(x.dst).to_owned(),
                kind: g.kind_str(x.kind_id).to_owned(),
                ts,
            };
            let ghost o = superseded@;
            superseded.push(op);
            assert(snapshot::op_views(superseded@) =~= snapshot::op_views(o).push(op@));
        }
        i += 1;
    }
    assert(all.take(all.len() as int) =~= all);
    Some(
        Conflict {
            src: g.node_name(e.src).to_owned(),
            kind: g.kind_str(e.kind_id).to_owned(),
            winner_dst: g.node_name(e.dst).to_owned(),
            superseded,
        },
    )
}

/// The contradictions of the graph: sources that have several open edges of a
/// kind that allows one. Nothing is changed; what would end them is returned.
pub fn find_conflicts(g: &TemporalGraph, kinds: &Vec<String>, weights: &Vec<u32>, ts: Ts) -> (res: Vec<
    Conflict,
>)
    requires
        g.wf(),
        weights@.len() == g@.edges.len(),
    ensures
        conflict_views(res@) == conflicts_of(
            g@,
            text::views(kinds@),
            weights@,
            ts,
            g@.nodes.len() as int,
        ),
{
    let ghost ks = text::views(kinds@);
    let mut out: Vec<Conflict> = Vec::new();
    let n: usize = g.node_count();
    let mut u: usize = 0;
    proof {
        g.lemma_wf();
    }
    assert(conflict_views(out@) =~= conflicts_of(g@, ks, weights@, ts, 0));
    while u < n
        invariant
            u <= n,
            n == g@.nodes.len(),
            n <= u32::MAX,
            g.wf(),
            weights@.len() == g@.edges.len(),
            ks == text::views(kinds@),
            conflict_views(out@) == conflicts_of(g@, ks, weights@, ts, u as int),
        decreases n - u,
    {
        let eids = functional_out(g, u as u32, kinds);
        let groups = kinds_of(g, &eids);
        let ghost base = conflict_views(out@);
        let mut k: usize = 0;
        assert(groups@.take(0) =~= Seq::empty());
        assert(base =~= base + conflicts_at(g@, eids@, groups@.take(0), weights@, ts));
        while k < groups.len()
            invariant
                k <= groups@.len(),
                g.wf(),
                in_graph(g@, eids@),
                weights@.len() == g@.edges.len(),
                conflict_views(out@) == base + conflicts_at(
                    g@,
                    eids@,
                    groups@.take(k as int),
                    weights@,
                    ts,
                ),
            decreases groups@.len() - k,
        {
            assert(groups@.take(k + 1).drop_last() =~= groups@.take(k as int));
            assert(groups@.take(k + 1).last() == groups@[k as int]);
            let group = of_one_kind(g, &eids, groups[k]);
            match conflict_of(g, &group, weights, ts) {
                Some(c) => {
                    let ghost o = out@;
                    out.push(c);
                    assert(conflict_views(out@) =~= conflict_views(o).push(c@));
                    assert(conflict_views(out@) =~= base + conflicts_at(
                        g@,
                        eids@,
                        groups@.take(k + 1),
                        weights@,
                        ts,
                    ));
                },
                None => {},
            }
            k += 1;
        }
        assert(groups@.take(groups@.len() as int) =~= groups@);
        u += 1;
    }
    out
}

/// No other record of a group has more weight than the one that is kept.
pub proof fn winner_has_the_most_weight(weights: Seq<u32>, eids: Seq<EdgeId>, i: int)
    requires
        0 <= i < eids.len(),
    ensures
        eids.contains(heaviest(weights, eids)),
        weights[eids[i] as int] <= weights[heaviest(weights, eids) as int],
    decreases eids.len(),
{
    if eids.len() == 1 {
        assert(eids[0] == heaviest(weights, eids));
    } else {
        let front = eids.drop_last();
        if i < front.len() {
            winner_has_the_most_weight(weights, front, i);
            assert(front[i] == eids[i]);
        } else {
            winner_has_the_most_weight(weights, front, 0);
            assert(eids[i] == eids.last());
        }
        let b = heaviest(weights, front);
        assert(eids[front.index_of(b)] == b);
        assert(eids[eids.len() - 1] == eids.last());
    }
}

// ---------------------------------------------------------------------------
// Edges by name, provenance and stored state
// ---------------------------------------------------------------------------

/// Whether a record is the open one of a relation.
pub open spec fn is_relation(g: GraphV, dst: NodeId, kind: Seq<char>) -> spec_fn(EdgeId) -> bool {
    |eid: EdgeId|
        g.edges[eid as int].dst == dst && g.kinds[g.edges[eid as int].kind_id as int] == kind
            && g.edges[eid as int].valid_to == T_MAX
}

/// The first open record of a relation given by names.
pub open spec fn named_edge(g: GraphV, src: Seq<char>, dst: Seq<char>, kind: Seq<char>) -> Option<
    EdgeId,
> {
    match (g.id_of(src), g.id_of(dst)) {
        (Some(s), Some(d)) => {
            let found = g.out_ids(s).filter(is_relation(g, d, kind));
            if found.len() > 0 {
                Some(found[0])
            } else {
                None
            }
        },
        _ => None,
    }
}

/// The first open record of a relation given by names.
pub fn edge_id(g: &TemporalGraph, src: &str, dst: &str, kind: &str) -> (res: Option<EdgeId>)
    requires
        g.wf(),
    ensures
        res == named_edge(g@, src@, dst@, kind@),
{
    let s: NodeId = match g.id_of(src) {
        Some(s) => s,
        None => {
            return None;
        },
    };
    let d: NodeId = match g.id_of(dst) {
        Some(d) => d,
        None => {
            return None;
        },
    };
    proof {
        g.lemma_wf();
        assert(s < g@.nodes.len());
        model::lemma_edge_ids(g@.edges, model::leaves(s));
    }
    let ids = g.out_edge_ids(s);
    let ghost all = g@.out_ids(s);
    let ghost p = is_relation(g@, d, kind@);
    let mut i: usize = 0;
    proof {
        reveal(Seq::filter);
        assert(all.take(0).filter(p) =~= Seq::empty());
    }
    while i < ids.len()
        invariant
            i <= ids@.len(),
            g.wf(),
            g@.wf(),
            ids@ == all,
            all == g@.out_ids(s),
            g@.id_of(src@) == Some(s),
            g@.id_of(dst@) == Some(d),
            p == is_relation(g@, d, kind@),
            forall|k: int| 0 <= k < all.len() ==> (#[trigger] all[k]) < g@.edges.len(),
            all.take(i as int).filter(p).len() == 0,
        decreases ids@.len() - i,
    {
        let eid: EdgeId = ids[i];
        let e = *g.edge(eid);
        assert(g@.edges[eid as int].kind_id < g@.kinds.len());
        proof {
            query::lemma_filter_step(all, i as int, p);
        }
        if e.dst == d && same_text(g.kind_str(e.kind_id), kind) && e.valid_to == T_MAX {
            proof {
                lemma_filter_first(all, i as int, p);
            }
            return Some(eid);
        }
        i += 1;
    }
    assert(all.take(all.len() as int) =~= all);
    None
}

proof fn lemma_filter_first(s: Seq<EdgeId>, i: int, p: spec_fn(EdgeId) -> bool)
    requires
        0 <= i < s.len(),
        p(s[i]),
        s.take(i).filter(p).len() == 0,
    ensures
        s.filter(p).len() > 0,
        s.filter(p)[0] == s[i],
    decreases s.len() - i,
{
    query::lemma_filter_step(s, i, p);
    lemma_filter_keeps_first(s, i + 1, p);
}

proof fn lemma_filter_keeps_first(s: Seq<EdgeId>, n: int, p: spec_fn(EdgeId) -> bool)
    requires
        0 <= n <= s.len(),
        s.take(n).filter(p).len() > 0,
    ensures
        s.filter(p).len() > 0,
        s.filter(p)[0] == s.take(n).filter(p)[0],
    decreases s.len() - n,
{
    if n == s.len() {
        assert(s.take(n) =~= s);
    } else {
        query::lemma_filter_step(s, n, p);
        lemma_filter_keeps_first(s, n + 1, p);
    }
}

/// The longest of the first `n` prefixes that begins a label.
pub open spec fn longest_prefix(label: Seq<char>, prefixes: Seq<Seq<char>>, n: int) -> Option<int>
    decreases n,
{
    if n <= 0 {
        None
    } else {
        let before = longest_prefix(label, prefixes, n - 1);
        if prefixes[n - 1].is_prefix_of(label) && (before matches Some(b) ==> prefixes[b].len()
            < prefixes[n - 1].len()) {
            Some(n - 1)
        } else {
            before
        }
    }
}

/// The prefix that says how far a label is trusted: the longest that begins it.
pub fn trusted_by(label: &str, prefixes: &Vec<String>) -> (res: Option<usize>)
    ensures
        match res {
            Some(i) => longest_prefix(label@, text::views(prefixes@), prefixes@.len() as int)
                == Some(i as int),
            None => longest_prefix(
                label@,
                text::views(prefixes@),
                prefixes@.len() as int,
            ) is None,
        },
{
    let ghost ps = text::views(prefixes@);
    let mut best: Option<(usize, usize)> = None;
    let mut i: usize = 0;
    while i < prefixes.len()
        invariant
            i <= prefixes@.len(),
            ps == text::views(prefixes@),
            match best {
                Some((b, len)) => b < i && longest_prefix(label@, ps, i as int) == Some(b as int)
                    && len == ps[b as int].len(),
                None => longest_prefix(label@, ps, i as int) is None,
            },
        decreases prefixes@.len() - i,
    {
        let p = prefixes[i].as_str();
        assert(ps[i as int] == p@);
        if has_prefix(label, p) {
            let len: usize = text::chars_of(p).len();
            match best {
                Some((_, l)) => {
                    if l < len {
                        best = Some((i, len));
                    }
                },
                None => {
                    best = Some((i, len));
                },
            }
        }
        i += 1;
    }
    match best {
        Some((b, _)) => Some(b),
        None => None,
    }
}

/// No prefix of a label is longer than the one that counts.
pub proof fn longest_prefix_wins(label: Seq<char>, prefixes: Seq<Seq<char>>, n: int, i: int)
    requires
        0 <= i < n <= prefixes.len(),
        prefixes[i].is_prefix_of(label),
    ensures
        longest_prefix(label, prefixes, n) matches Some(b) && 0 <= b < n
            && prefixes[b].is_prefix_of(label) && prefixes[i].len() <= prefixes[b].len(),
    decreases n,
{
    if i < n - 1 {
        longest_prefix_wins(label, prefixes, n - 1, i);
    } else {
        lemma_longest_prefix(label, prefixes, n - 1);
    }
}

proof fn lemma_longest_prefix(label: Seq<char>, prefixes: Seq<Seq<char>>, n: int)
    requires
        n <= prefixes.len(),
    ensures
        longest_prefix(label, prefixes, n) matches Some(b) ==> 0 <= b < n
            && prefixes[b].is_prefix_of(label),
    decreases n,
{
    if n > 0 {
        lemma_longest_prefix(label, prefixes, n - 1);
    }
}

/// The last position of a key among the first `n`.
pub open spec fn last_position(keys: Seq<u64>, key: u64, n: int) -> Option<int>
    decreases n,
{
    if n <= 0 {
        None
    } else if keys[n - 1] == key {
        Some(n - 1)
    } else {
        last_position(keys, key, n - 1)
    }
}

pub open spec fn position_view(p: Option<usize>) -> Option<int> {
    match p {
        Some(i) => Some(i as int),
        None => None,
    }
}

/// Where the state of each edge is found among states that are stored by
/// stable key.
pub fn match_keys(g: &TemporalGraph, keys: &Vec<u64>) -> (res: Vec<Option<usize>>)
    requires
        g.wf(),
    ensures
        res@.len() == g@.edges.len(),
        forall|eid: int|
            0 <= eid < res@.len() ==> position_view(#[trigger] res@[eid]) == last_position(
                keys@,
                fnv::stable_key(g@, eid as u32),
                keys@.len() as int,
            ),
{
    let mut index: HashMap<u64, usize> = HashMap::new();
    let mut i: usize = 0;
    while i < keys.len()
        invariant
            i <= keys@.len(),
            forall|k: u64|
                #![trigger index@.contains_key(k)]
                match last_position(keys@, k, i as int) {
                    Some(p) => index@.contains_key(k) && index@[k] == p,
                    None => !index@.contains_key(k),
                },
        decreases keys@.len() - i,
    {
        index.insert(keys[i], i);
        i += 1;
    }
    let n: usize = g.edge_count();
    let mut out: Vec<Option<usize>> = Vec::new();
    let mut e: usize = 0;
    proof {
        g.lemma_wf();
    }
    while e < n
        invariant
            e <= n,
            n == g@.edges.len(),
            n <= u32::MAX,
            g.wf(),
            forall|k: u64|
                #![trigger index@.contains_key(k)]
                match last_position(keys@, k, keys@.len() as int) {
                    Some(p) => index@.contains_key(k) && index@[k] == p,
                    None => !index@.contains_key(k),
                },
            out@.len() == e,
            forall|eid: int|
                0 <= eid < e ==> position_view(#[trigger] out@[eid]) == last_position(
                    keys@,
                    fnv::stable_key(g@, eid as u32),
                    keys@.len() as int,
                ),
        decreases n - e,
    {
        let key: u64 = stable_edge_key(g, e as u32);
        assert(index@.contains_key(key) || !index@.contains_key(key));
        let at: Option<usize> = match index.get(&key) {
            Some(p) => Some(*p),
            None => None,
        };
        out.push(at);
        e += 1;
    }
    out
}

/// The newest format of stored state that can be read.
pub const SIDECAR_VERSION_MAX: u64 = 2;

/// Whether stored state may be loaded: its format is known, and it belongs to
/// the log, where both say which log that is.
pub open spec fn sidecar_refusal(
    version: u64,
    bound: Option<Seq<char>>,
    wal_id: Option<Seq<char>>,
) -> Option<Seq<char>> {
    if version > SIDECAR_VERSION_MAX {
        Some(
            "sidecar format v"@ + text::decimal(version as nat)
                + " is newer than this build supports (v2)"@,
        )
    } else {
        match (bound, wal_id) {
            (Some(b), Some(w)) => if b != w {
                Some("sidecar belongs to a different WAL ("@ + b + ", this one is "@ + w + ")"@)
            } else {
                None
            },
            _ => None,
        }
    }
}

/// Whether stored state may be loaded, or why not.
pub fn check_sidecar(version: u64, bound: Option<&str>, wal_id: Option<&str>) -> (res: Result<
    (),
    String,
>)
    ensures
        match res {
            Ok(_) => sidecar_refusal(
                version,
                crate::graph::str_view(bound),
                crate::graph::str_view(wal_id),
            ) is None,
            Err(e) => sidecar_refusal(
                version,
                crate::graph::str_view(bound),
                crate::graph::str_view(wal_id),
            ) == Some(e@),
        },
{
    if version > SIDECAR_VERSION_MAX {
        let v = decimal_text(version);
        return Err(
            cat3("sidecar format v", v.as_str(), " is newer than this build supports (v2)"),
        );
    }
    match (bound, wal_id) {
        (Some(b), Some(w)) => if same_text(b, w) {
            Ok(())
        } else {
            Err(cat5("sidecar belongs to a different WAL (", b, ", this one is ", w, ")"))
        },
        _ => Ok(()),
    }
}

} // verus!
