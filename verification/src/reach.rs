//! What is reachable from a node, and along which path.

use crate::graph::TemporalGraph;
use crate::model;
use crate::model::{Edge, EdgeId, GraphV, NodeId, Ts};
use crate::query;
use vstd::prelude::*;

verus! {

/// Which way edges are followed.
#[derive(Debug, Clone, Copy, PartialEq, Eq, Structural)]
pub enum Direction {
    /// From source to target: what does this affect?
    Down,
    /// From target to source: what does this depend on?
    Up,
    Both,
}

/// A reached node.
#[derive(Debug)]
pub struct Reach {
    pub node: String,
    pub node_type: String,
    pub depth: u32,
    /// The way from the origin: "origin -[KIND]-> hop -[KIND]-> node".
    pub path: String,
}

/// The mathematical form of a [`Reach`].
pub struct ReachV {
    pub node: Seq<char>,
    pub node_type: Seq<char>,
    pub depth: u32,
    pub path: Seq<char>,
}

impl View for Reach {
    type V = ReachV;

    open spec fn view(&self) -> ReachV {
        ReachV {
            node: self.node@,
            node_type: self.node_type@,
            depth: self.depth,
            path: self.path@,
        }
    }
}

/// A node that a traversal has come to.
pub struct HopV {
    pub id: NodeId,
    pub depth: u32,
    pub path: Seq<char>,
}

/// A step that a traversal may take from a node.
pub struct LinkV {
    pub to: NodeId,
    pub kind_id: u32,
    pub down: bool,
}

pub open spec fn holding(g: GraphV, t: Ts) -> spec_fn(EdgeId) -> bool {
    |e: EdgeId| g.edges[e as int].holds_at(t)
}

pub open spec fn down_link(g: GraphV) -> spec_fn(EdgeId) -> LinkV {
    |e: EdgeId|
        LinkV { to: g.edges[e as int].dst, kind_id: g.edges[e as int].kind_id, down: true }
}

pub open spec fn up_link(g: GraphV) -> spec_fn(EdgeId) -> LinkV {
    |e: EdgeId|
        LinkV { to: g.edges[e as int].src, kind_id: g.edges[e as int].kind_id, down: false }
}

pub open spec fn down_links(g: GraphV, id: NodeId, t: Ts) -> Seq<LinkV> {
    g.out_ids(id).filter(holding(g, t)).map_values(down_link(g))
}

pub open spec fn up_links(g: GraphV, id: NodeId, t: Ts) -> Seq<LinkV> {
    g.in_ids(id).filter(holding(g, t)).map_values(up_link(g))
}

/// The steps from a node over edges alive at `t`: down first, then up, each
/// in the order of observation.
pub open spec fn links(g: GraphV, id: NodeId, t: Ts, dir: Direction) -> Seq<LinkV> {
    (if dir == Direction::Up {
        Seq::empty()
    } else {
        down_links(g, id, t)
    }) + (if dir == Direction::Down {
        Seq::empty()
    } else {
        up_links(g, id, t)
    })
}

/// A path with one more step on it.
pub open spec fn step_text(g: GraphV, path: Seq<char>, l: LinkV) -> Seq<char> {
    if l.down {
        path + " -["@ + g.kinds[l.kind_id as int] + "]-> "@ + g.nodes[l.to as int].name
    } else {
        path + " <["@ + g.kinds[l.kind_id as int] + "]- "@ + g.nodes[l.to as int].name
    }
}

pub open spec fn reached(hops: Seq<HopV>, id: NodeId) -> bool {
    exists|k: int| 0 <= k < hops.len() && (#[trigger] hops[k]).id == id
}

/// One step: a node that is alive and was not reached before joins the list.
pub open spec fn visit(g: GraphV, t: Ts, hops: Seq<HopV>, from: HopV, l: LinkV) -> Seq<HopV> {
    if reached(hops, l.to) || !g.nodes[l.to as int].alive_at(t) {
        hops
    } else {
        hops.push(
            HopV {
                id: l.to,
                depth: (from.depth + 1) as u32,
                path: step_text(g, from.path, l),
            },
        )
    }
}

pub open spec fn visit_all(g: GraphV, t: Ts, hops: Seq<HopV>, from: HopV, ls: Seq<LinkV>) -> Seq<
    HopV,
>
    decreases ls.len(),
{
    if ls.len() == 0 {
        hops
    } else {
        visit(g, t, visit_all(g, t, hops, from, ls.drop_last()), from, ls.last())
    }
}

/// The list after the steps from its `i`-th node.
pub open spec fn expand(
    g: GraphV,
    t: Ts,
    dir: Direction,
    max_depth: u32,
    hops: Seq<HopV>,
    i: int,
) -> Seq<HopV> {
    if hops[i].depth >= max_depth {
        hops
    } else {
        visit_all(g, t, hops, hops[i], links(g, hops[i].id, t, dir))
    }
}

/// Breadth-first: the list after the steps from its nodes from `i` on, of at
/// most `fuel` nodes.
pub open spec fn explore(
    g: GraphV,
    t: Ts,
    dir: Direction,
    max_depth: u32,
    hops: Seq<HopV>,
    i: int,
    fuel: nat,
) -> Seq<HopV>
    decreases fuel,
{
    if fuel == 0 || i >= hops.len() {
        hops
    } else {
        explore(
            g,
            t,
            dir,
            max_depth,
            expand(g, t, dir, max_depth, hops, i),
            i + 1,
            (fuel - 1) as nat,
        )
    }
}

/// The traversal from node `start`, which stands first.
pub open spec fn traversal(
    g: GraphV,
    start: NodeId,
    t: Ts,
    dir: Direction,
    max_depth: u32,
) -> Seq<HopV> {
    explore(
        g,
        t,
        dir,
        max_depth,
        seq![HopV { id: start, depth: 0, path: g.nodes[start as int].name }],
        0,
        g.nodes.len(),
    )
}

pub open spec fn reach_of(g: GraphV) -> spec_fn(HopV) -> ReachV {
    |h: HopV|
        ReachV {
            node: g.nodes[h.id as int].name,
            node_type: g.type_of(h.id),
            depth: h.depth,
            path: h.path,
        }
}

/// What is reachable from the node called `origin`: nothing where there is no
/// such node alive at `t`, else the nodes of the traversal after the first.
pub open spec fn blast_radius_of(
    g: GraphV,
    origin: Seq<char>,
    t: Ts,
    dir: Direction,
    max_depth: u32,
) -> Seq<ReachV> {
    match g.id_of(origin) {
        Some(start) => if g.nodes[start as int].alive_at(t) {
            traversal(g, start, t, dir, max_depth).skip(1).map_values(reach_of(g))
        } else {
            Seq::empty()
        },
        None => Seq::empty(),
    }
}

/// The nodes of a list are different nodes of the graph.
pub open spec fn distinct(g: GraphV, hops: Seq<HopV>) -> bool {
    &&& forall|k: int| 0 <= k < hops.len() ==> (#[trigger] hops[k]).id < g.nodes.len()
    &&& forall|j: int, k: int|
        0 <= j < k < hops.len() ==> (#[trigger] hops[j]).id != (#[trigger] hops[k]).id
}

pub proof fn lemma_distinct_len(g: GraphV, hops: Seq<HopV>)
    requires
        distinct(g, hops),
    ensures
        hops.len() <= g.nodes.len(),
{
    let ids = hops.map_values(|h: HopV| h.id as int);
    assert(ids.no_duplicates());
    ids.unique_seq_to_set();
    vstd::set_lib::lemma_int_range(0, g.nodes.len() as int);
    let range = vstd::set_lib::set_int_range(0, g.nodes.len() as int);
    assert(ids.to_set().subset_of(range)) by {
        assert forall|x: int| ids.to_set().contains(x) implies range.contains(x) by {
            let k = ids.index_of(x);
            assert(hops[k].id < g.nodes.len());
        }
    }
    vstd::set_lib::lemma_len_subset(ids.to_set(), range);
}

proof fn lemma_visit_all_concat(
    g: GraphV,
    t: Ts,
    hops: Seq<HopV>,
    from: HopV,
    a: Seq<LinkV>,
    b: Seq<LinkV>,
)
    ensures
        visit_all(g, t, hops, from, a + b) == visit_all(
            g,
            t,
            visit_all(g, t, hops, from, a),
            from,
            b,
        ),
    decreases b.len(),
{
    if b.len() == 0 {
        assert(a + b =~= a);
    } else {
        assert((a + b).drop_last() =~= a + b.drop_last());
        assert((a + b).last() == b.last());
        lemma_visit_all_concat(g, t, hops, from, a, b.drop_last());
    }
}

/// A node that a traversal has come to.
struct Hop {
    id: NodeId,
    depth: u32,
    path: String,
}

impl View for Hop {
    type V = HopV;

    closed spec fn view(&self) -> HopV {
        HopV { id: self.id, depth: self.depth, path: self.path@ }
    }
}

spec fn hop_views(v: Seq<Hop>) -> Seq<HopV> {
    v.map_values(|h: Hop| h@)
}

/// A traversal under way: the list, and which nodes are in it.
struct Walk {
    hops: Vec<Hop>,
    visited: Vec<bool>,
}

impl Walk {
    spec fn hops(&self) -> Seq<HopV> {
        hop_views(self.hops@)
    }

    spec fn wf(&self, g: GraphV) -> bool {
        &&& distinct(g, self.hops())
        &&& self.visited@.len() == g.nodes.len()
        &&& forall|id: u32|
            id < g.nodes.len() ==> #[trigger] self.visited@[id as int] == reached(self.hops(), id)
    }
}

impl TemporalGraph {
    /// Takes one step from the `i`-th node of the list.
    fn take_step(&self, w: &mut Walk, i: usize, t: Ts, to: NodeId, kind_id: u32, down: bool)
        requires
            self.wf(),
            old(w).wf(self@),
            i < old(w).hops().len(),
            old(w).hops()[i as int].depth < u32::MAX,
            to < self@.nodes.len(),
            kind_id < self@.kinds.len(),
        ensures
            final(w).wf(self@),
            final(w).hops() == visit(
                self@,
                t,
                old(w).hops(),
                old(w).hops()[i as int],
                LinkV { to, kind_id, down },
            ),
            final(w).hops().len() >= old(w).hops().len(),
            final(w).hops()[i as int] == old(w).hops()[i as int],
    {
        let ghost before = w.hops();
        assert(w.visited@[to as int] == reached(before, to));
        if w.visited[to as usize] {
            return;
        }
        if !self.node(to).alive_at(t) {
            return;
        }
        let mut p = w.hops[i].path.clone();
        let d: u32 = w.hops[i].depth;
        assert(before[i as int] == w.hops@[i as int]@);
        if down {
            p.append(" -[");
            p.append(self.kind_str(kind_id));
            p.append("]-> ");
            p.append(self.node_name(to));
        } else {
            p.append(" <[");
            p.append(self.kind_str(kind_id));
            p.append("]- ");
            p.append(self.node_name(to));
        }
        let h = Hop { id: to, depth: d + 1, path: p };
        w.visited.set(to as usize, true);
        w.hops.push(h);
        proof {
            assert(w.hops() =~= before.push(h@));
            let after = w.hops();
            assert forall|id: u32| id < self@.nodes.len() implies #[trigger] w.visited@[id as int]
                == reached(after, id) by {
                assert(old(w).visited@[id as int] == reached(before, id));
                if reached(before, id) {
                    let k = choose|k: int| 0 <= k < before.len() && (#[trigger] before[k]).id == id;
                    assert(after[k].id == id);
                }
                if id == to {
                    assert(after[before.len() as int].id == to);
                }
                if reached(after, id) && id != to {
                    let k = choose|k: int| 0 <= k < after.len() && (#[trigger] after[k]).id == id;
                    assert(before[k].id == id);
                }
            }
            assert forall|j: int, k: int| 0 <= j < k < after.len() implies (#[trigger] after[j]).id
                != (#[trigger] after[k]).id by {
                if k == before.len() {
                    assert(before[j].id != to);
                }
            }
        }
    }

    /// Takes the steps from the `i`-th node over the edges that leave it.
    fn steps_down(&self, w: &mut Walk, i: usize, t: Ts)
        requires
            self.wf(),
            old(w).wf(self@),
            i < old(w).hops().len(),
            old(w).hops()[i as int].depth < u32::MAX,
        ensures
            final(w).wf(self@),
            final(w).hops() == visit_all(
                self@,
                t,
                old(w).hops(),
                old(w).hops()[i as int],
                down_links(self@, old(w).hops()[i as int].id, t),
            ),
            final(w).hops().len() >= old(w).hops().len(),
            final(w).hops()[i as int] == old(w).hops()[i as int],
    {
        let ghost g = self@;
        let ghost start = w.hops();
        let ghost from = start[i as int];
        let id: NodeId = w.hops[i].id;
        assert(from == w.hops@[i as int]@);
        let eids = self.out_edge_ids(id);
        let ghost ids = g.out_ids(id);
        let ghost p = holding(g, t);
        let ghost f = down_link(g);
        proof {
            self.lemma_wf();
            model::lemma_edge_ids(g.edges, model::leaves(id));
            reveal(Seq::filter);
            assert(ids.take(0).filter(p).map_values(f) =~= Seq::empty());
        }
        let mut j: usize = 0;
        while j < eids.len()
            invariant
                j <= eids@.len(),
                self.wf(),
                g == self@,
                g.wf(),
                eids@ == ids,
                forall|k: int| 0 <= k < ids.len() ==> (#[trigger] ids[k]) < g.edges.len(),
                p == holding(g, t),
                f == down_link(g),
                w.wf(g),
                i < start.len() <= w.hops().len(),
                w.hops()[i as int] == from,
                from.depth < u32::MAX,
                w.hops() == visit_all(
                    g,
                    t,
                    start,
                    from,
                    ids.take(j as int).filter(p).map_values(f),
                ),
            decreases eids@.len() - j,
        {
            let eid: EdgeId = eids[j];
            assert(ids[j as int] < g.edges.len());
            let e: Edge = *self.edge(eid);
            proof {
                query::lemma_filter_step(ids, j as int, p);
                query::lemma_map_push(ids.take(j as int).filter(p), eid, f);
                let done = ids.take(j as int).filter(p).map_values(f);
                assert(done.push(f(eid)).drop_last() =~= done);
            }
            if e.alive_at(t) {
                self.take_step(w, i, t, e.dst, e.kind_id, true);
            }
            j += 1;
        }
        assert(ids.take(ids.len() as int) =~= ids);
    }

    /// Takes the steps from the `i`-th node over the edges that arrive there.
    fn steps_up(&self, w: &mut Walk, i: usize, t: Ts)
        requires
            self.wf(),
            old(w).wf(self@),
            i < old(w).hops().len(),
            old(w).hops()[i as int].depth < u32::MAX,
        ensures
            final(w).wf(self@),
            final(w).hops() == visit_all(
                self@,
                t,
                old(w).hops(),
                old(w).hops()[i as int],
                up_links(self@, old(w).hops()[i as int].id, t),
            ),
            final(w).hops().len() >= old(w).hops().len(),
            final(w).hops()[i as int] == old(w).hops()[i as int],
    {
        let ghost g = self@;
        let ghost start = w.hops();
        let ghost from = start[i as int];
        let id: NodeId = w.hops[i].id;
        assert(from == w.hops@[i as int]@);
        let eids = self.in_edge_ids(id);
        let ghost ids = g.in_ids(id);
        let ghost p = holding(g, t);
        let ghost f = up_link(g);
        proof {
            self.lemma_wf();
            model::lemma_edge_ids(g.edges, model::arrives(id));
            reveal(Seq::filter);
            assert(ids.take(0).filter(p).map_values(f) =~= Seq::empty());
        }
        let mut j: usize = 0;
        while j < eids.len()
            invariant
                j <= eids@.len(),
                self.wf(),
                g == self@,
                g.wf(),
                eids@ == ids,
                forall|k: int| 0 <= k < ids.len() ==> (#[trigger] ids[k]) < g.edges.len(),
                p == holding(g, t),
                f == up_link(g),
                w.wf(g),
                i < start.len() <= w.hops().len(),
                w.hops()[i as int] == from,
                from.depth < u32::MAX,
                w.hops() == visit_all(
                    g,
                    t,
                    start,
                    from,
                    ids.take(j as int).filter(p).map_values(f),
                ),
            decreases eids@.len() - j,
        {
            let eid: EdgeId = eids[j];
            assert(ids[j as int] < g.edges.len());
            let e: Edge = *self.edge(eid);
            proof {
                query::lemma_filter_step(ids, j as int, p);
                query::lemma_map_push(ids.take(j as int).filter(p), eid, f);
                let done = ids.take(j as int).filter(p).map_values(f);
                assert(done.push(f(eid)).drop_last() =~= done);
            }
            if e.alive_at(t) {
                self.take_step(w, i, t, e.src, e.kind_id, false);
            }
            j += 1;
        }
        assert(ids.take(ids.len() as int) =~= ids);
    }

    /// The traversal from node `start`.
    fn walk(&self, start: NodeId, t: Ts, dir: Direction, max_depth: u32) -> (res: Walk)
        requires
            self.wf(),
            start < self@.nodes.len(),
        ensures
            res.hops() == traversal(self@, start, t, dir, max_depth),
            distinct(self@, res.hops()),
            res.hops().len() > 0,
    {
        let ghost g = self@;
        let n: usize = self.node_count();
        let mut visited: Vec<bool> = vec![false; n];
        visited.set(start as usize, true);
        let mut hops: Vec<Hop> = Vec::new();
        hops.push(Hop { id: start, depth: 0, path: self.node_name(start).to_owned() });
        let mut w = Walk { hops, visited };
        let ghost first = seq![HopV { id: start, depth: 0, path: g.nodes[start as int].name }];
        proof {
            assert(w.hops() =~= first);
            assert(w.hops()[0].id == start);
            lemma_distinct_len(g, w.hops());
        }
        let mut i: usize = 0;
        while i < w.hops.len()
            invariant
                self.wf(),
                g == self@,
                w.wf(g),
                i <= w.hops@.len(),
                w.hops@.len() > 0,
                w.hops().len() <= g.nodes.len(),
                traversal(g, start, t, dir, max_depth) == explore(
                    g,
                    t,
                    dir,
                    max_depth,
                    w.hops(),
                    i as int,
                    (g.nodes.len() - i) as nat,
                ),
            decreases g.nodes.len() - i,
        {
            let ghost before = w.hops();
            assert(before[i as int] == w.hops@[i as int]@);
            let ghost id = before[i as int].id;
            if w.hops[i].depth < max_depth {
                proof {
                    lemma_visit_all_concat(
                        g,
                        t,
                        before,
                        before[i as int],
                        down_links(g, id, t),
                        up_links(g, id, t),
                    );
                    assert(Seq::<LinkV>::empty() + up_links(g, id, t) =~= up_links(g, id, t));
                    assert(down_links(g, id, t) + Seq::<LinkV>::empty() =~= down_links(g, id, t));
                }
                if dir != Direction::Up {
                    self.steps_down(&mut w, i, t);
                }
                if dir != Direction::Down {
                    self.steps_up(&mut w, i, t);
                }
            }
            assert(w.hops() == expand(g, t, dir, max_depth, before, i as int));
            proof {
                lemma_distinct_len(g, w.hops());
            }
            i += 1;
        }
        w
    }

    /// Breadth-first over edges alive at `t`, each node once, so that cycles
    /// end. Returns the reached nodes with the way that led to each.
    pub fn blast_radius(
        &self,
        origin: &str,
        t: Ts,
        dir: Direction,
        max_depth: u32,
    ) -> (res: Vec<Reach>)
        requires
            self.wf(),
        ensures
            res@.map_values(|r: Reach| r@) == blast_radius_of(self@, origin@, t, dir, max_depth),
    {
        let ghost view = |r: Reach| r@;
        let mut out: Vec<Reach> = Vec::new();
        assert(out@.map_values(view) =~= Seq::empty());
        proof {
            self.lemma_wf();
        }
        if let Some(start) = self.id_of(origin) {
            if self.node(start).alive_at(t) {
                let w = self.walk(start, t, dir, max_depth);
                let ghost g = self@;
                let ghost rest = w.hops().skip(1);
                let ghost f = reach_of(g);
                let mut i: usize = 1;
                assert(rest.take(0).map_values(f) =~= Seq::empty());
                while i < w.hops.len()
                    invariant
                        1 <= i <= w.hops@.len(),
                        self.wf(),
                        g == self@,
                        f == reach_of(g),
                        distinct(g, w.hops()),
                        rest == w.hops().skip(1),
                        view == (|r: Reach| r@),
                        out@.map_values(view) == rest.take(i - 1).map_values(f),
                    decreases w.hops@.len() - i,
                {
                    let h = &w.hops[i];
                    assert(w.hops()[i as int] == h@);
                    assert(h.id < g.nodes.len());
                    let r = Reach {
                        node: self.node_name(h.id).to_owned(),
                        node_type: self.node_type(h.id).to_owned(),
                        depth: h.depth,
                        path: h.path.clone(),
                    };
                    let ghost o = out@;
                    out.push(r);
                    proof {
                        assert(out@.map_values(view) =~= o.map_values(view).push(r@));
                        assert(rest.take(i as int) =~= rest.take(i - 1).push(rest[i - 1]));
                        query::lemma_map_push(rest.take(i - 1), rest[i - 1], f);
                    }
                    i += 1;
                }
                assert(rest.take(rest.len() as int) =~= rest);
            }
        }
        out
    }
}

} // verus!
