//! What a traversal finds: everything within reach, each node once, by a
//! shortest way.

use crate::model;
use crate::model::{GraphV, NodeId, Ts};
use crate::query;
use crate::reach;
use crate::reach::{Direction, HopV, LinkV, ReachV};
use vstd::prelude::*;

verus! {

/// Whether an edge that holds at `t` leads from one node to another.
pub open spec fn joined(g: GraphV, t: Ts, dir: Direction, u: NodeId, v: NodeId) -> bool {
    exists|i: int| #[trigger] joins(g, t, dir, u, v, i)
}

pub open spec fn joins(g: GraphV, t: Ts, dir: Direction, u: NodeId, v: NodeId, i: int) -> bool {
    &&& 0 <= i < g.edges.len()
    &&& g.edges[i].holds_at(t)
    &&& (dir != Direction::Up && g.edges[i].src == u && g.edges[i].dst == v) || (dir
        != Direction::Down && g.edges[i].dst == u && g.edges[i].src == v)
}

/// A step to a node that is alive at `t`, from a node of a set.
pub open spec fn step_into(g: GraphV, t: Ts, dir: Direction, s: Set<NodeId>, v: NodeId) -> bool {
    &&& v < g.nodes.len()
    &&& g.nodes[v as int].alive_at(t)
    &&& exists|u: NodeId| #[trigger] s.contains(u) && joined(g, t, dir, u, v)
}

/// The nodes that `d` steps or fewer lead to, all of them alive at `t`.
pub open spec fn within(g: GraphV, t: Ts, dir: Direction, start: NodeId, d: nat) -> Set<NodeId>
    decreases d,
{
    if d == 0 {
        Set::empty().insert(start)
    } else {
        let s = within(g, t, dir, start, (d - 1) as nat);
        s.union(Set::new(|v: NodeId| step_into(g, t, dir, s, v)))
    }
}

proof fn lemma_within_grows(g: GraphV, t: Ts, dir: Direction, start: NodeId, d: nat, e: nat)
    requires
        d <= e,
    ensures
        within(g, t, dir, start, d).subset_of(within(g, t, dir, start, e)),
    decreases e,
{
    if d < e {
        lemma_within_grows(g, t, dir, start, d, (e - 1) as nat);
    }
}

/// The steps of a traversal are the edges that hold at `t`.
proof fn lemma_links(g: GraphV, u: NodeId, t: Ts, dir: Direction)
    requires
        g.wf(),
    ensures
        forall|k: int|
            0 <= k < reach::links(g, u, t, dir).len() ==> (#[trigger] reach::links(
                g,
                u,
                t,
                dir,
            )[k]).to < g.nodes.len() && joined(g, t, dir, u, reach::links(g, u, t, dir)[k].to),
        forall|v: NodeId| #[trigger]
            joined(g, t, dir, u, v) ==> leads_to(reach::links(g, u, t, dir), v),
{
    let ls = reach::links(g, u, t, dir);
    let p = reach::holding(g, t);
    let outs = g.out_ids(u).filter(p);
    let ins = g.in_ids(u).filter(p);
    model::lemma_edge_ids(g.edges, model::leaves(u));
    model::lemma_edge_ids(g.edges, model::arrives(u));
    query::lemma_filter_members(g.out_ids(u), p);
    query::lemma_filter_members(g.in_ids(u), p);
    let downs = reach::down_links(g, u, t);
    let ups = reach::up_links(g, u, t);
    let first = if dir == Direction::Up {
        Seq::<LinkV>::empty()
    } else {
        downs
    };
    assert forall|k: int| 0 <= k < ls.len() implies (#[trigger] ls[k]).to < g.nodes.len() && joined(
        g,
        t,
        dir,
        u,
        ls[k].to,
    ) by {
        if k < first.len() {
            assert(ls[k] == downs[k]);
            let e = outs[k];
            assert(g.out_ids(u).contains(e));
            let m = g.out_ids(u).index_of(e);
            assert(model::leaves(u)(g.edges[e as int]));
            assert(p(e));
            assert(joins(g, t, dir, u, ls[k].to, e as int));
        } else {
            let j = k - first.len();
            assert(ls[k] == ups[j]);
            let e = ins[j];
            assert(g.in_ids(u).contains(e));
            let m = g.in_ids(u).index_of(e);
            assert(model::arrives(u)(g.edges[e as int]));
            assert(p(e));
            assert(joins(g, t, dir, u, ls[k].to, e as int));
        }
    }
    assert forall|v: NodeId| #[trigger] joined(g, t, dir, u, v) implies leads_to(ls, v) by {
        let i = choose|i: int| #[trigger] joins(g, t, dir, u, v, i);
        let e = g.edges[i];
        if dir != Direction::Up && e.src == u && e.dst == v {
            assert(model::leaves(u)(e));
            assert(g.out_ids(u).contains(i as u32));
            assert(p(i as u32));
            let k = outs.index_of(i as u32);
            assert(ls[k] == downs[k]);
            assert(ls[k].to == v);
        } else {
            assert(model::arrives(u)(e));
            assert(g.in_ids(u).contains(i as u32));
            assert(p(i as u32));
            let k = ins.index_of(i as u32);
            assert(ls[first.len() + k] == ups[k]);
            assert(ls[first.len() + k].to == v);
        }
    }
}

spec fn leads_to(ls: Seq<LinkV>, v: NodeId) -> bool {
    exists|k: int| 0 <= k < ls.len() && (#[trigger] ls[k]).to == v
}

/// A list of a traversal under way, of which the nodes before `i` have been
/// expanded.
spec fn sound(
    g: GraphV,
    t: Ts,
    dir: Direction,
    start: NodeId,
    max: u32,
    hops: Seq<HopV>,
    i: int,
) -> bool {
    &&& reach::distinct(g, hops)
    &&& hops.len() > 0
    &&& hops[0].id == start
    &&& hops[0].depth == 0
    &&& 0 <= i <= hops.len()
    &&& forall|k: int|
        0 <= k < hops.len() ==> (#[trigger] hops[k]).depth <= max && within(
            g,
            t,
            dir,
            start,
            hops[k].depth as nat,
        ).contains(hops[k].id)
    &&& forall|k: int|
        0 < k < hops.len() ==> (#[trigger] hops[k]).depth > 0 && g.nodes[hops[k].id as int].alive_at(
            t,
        )
    &&& forall|j: int, k: int|
        0 <= j < k < hops.len() ==> (#[trigger] hops[j]).depth <= (#[trigger] hops[k]).depth
    &&& forall|k: int|
        0 <= k < hops.len() && i < hops.len() ==> (#[trigger] hops[k]).depth <= hops[i].depth + 1
    &&& forall|j: int, v: NodeId|
        0 <= j < i && (#[trigger] hops[j]).depth < max && #[trigger] joined(
            g,
            t,
            dir,
            hops[j].id,
            v,
        ) && g.nodes[v as int].alive_at(t) ==> found(hops, v, hops[j].depth + 1)
}

/// A node stands in a list, at a depth of `d` at most.
spec fn found(hops: Seq<HopV>, v: NodeId, d: int) -> bool {
    exists|k: int| 0 <= k < hops.len() && (#[trigger] hops[k]).id == v && hops[k].depth <= d
}

proof fn lemma_visit_all(g: GraphV, t: Ts, hops: Seq<HopV>, from: HopV, ls: Seq<LinkV>)
    requires
        reach::distinct(g, hops),
        from.depth < u32::MAX,
        forall|k: int| 0 <= k < ls.len() ==> (#[trigger] ls[k]).to < g.nodes.len(),
    ensures
        ({
            let r = reach::visit_all(g, t, hops, from, ls);
            &&& reach::distinct(g, r)
            &&& hops.is_prefix_of(r)
            &&& forall|k: int|
                hops.len() <= k < r.len() ==> (#[trigger] r[k]).depth == from.depth + 1 && leads_to(
                    ls,
                    r[k].id,
                ) && g.nodes[r[k].id as int].alive_at(t)
            &&& forall|k: int|
                0 <= k < ls.len() && g.nodes[(#[trigger] ls[k]).to as int].alive_at(t)
                    ==> reach::reached(r, ls[k].to)
        }),
    decreases ls.len(),
{
    if ls.len() > 0 {
        let front = ls.drop_last();
        assert forall|k: int| 0 <= k < front.len() implies (#[trigger] front[k]).to
            < g.nodes.len() by {
            assert(ls[k].to < g.nodes.len());
        }
        lemma_visit_all(g, t, hops, from, front);
        let m = reach::visit_all(g, t, hops, from, front);
        let r = reach::visit_all(g, t, hops, from, ls);
        assert(ls[ls.len() - 1].to < g.nodes.len());
        assert(m.is_prefix_of(r));
        assert forall|k: int| hops.len() <= k < r.len() implies (#[trigger] r[k]).depth
            == from.depth + 1 && leads_to(ls, r[k].id) && g.nodes[r[k].id as int].alive_at(t) by {
            if k < m.len() {
                assert(r[k] == m[k]);
                let a = choose|a: int| 0 <= a < front.len() && (#[trigger] front[a]).to == m[k].id;
                assert(ls[a].to == r[k].id);
            } else {
                assert(ls[ls.len() - 1].to == r[k].id);
            }
        }
        assert forall|k: int|
            0 <= k < ls.len() && g.nodes[(
            #[trigger] ls[k]).to as int].alive_at(t) implies reach::reached(r, ls[k].to) by {
            if k < front.len() {
                assert(front[k] == ls[k]);
                let a = choose|a: int| 0 <= a < m.len() && (#[trigger] m[a]).id == ls[k].to;
                assert(r[a].id == ls[k].to);
            } else if reach::reached(m, ls[k].to) {
                let a = choose|a: int| 0 <= a < m.len() && (#[trigger] m[a]).id == ls[k].to;
                assert(r[a].id == ls[k].to);
            } else {
                assert(r[r.len() - 1].id == ls[k].to);
            }
        }
    }
}

proof fn lemma_expand(
    g: GraphV,
    t: Ts,
    dir: Direction,
    start: NodeId,
    max: u32,
    hops: Seq<HopV>,
    i: int,
)
    requires
        g.wf(),
        sound(g, t, dir, start, max, hops, i),
        i < hops.len(),
    ensures
        sound(g, t, dir, start, max, reach::expand(g, t, dir, max, hops, i), i + 1),
{
    let r = reach::expand(g, t, dir, max, hops, i);
    if hops[i].depth < max {
        let from = hops[i];
        let ls = reach::links(g, from.id, t, dir);
        lemma_links(g, from.id, t, dir);
        lemma_visit_all(g, t, hops, from, ls);
        assert forall|k: int| 0 <= k < r.len() implies (#[trigger] r[k]).depth <= max && within(
            g,
            t,
            dir,
            start,
            r[k].depth as nat,
        ).contains(r[k].id) by {
            if k < hops.len() {
                assert(r[k] == hops[k]);
            } else {
                let a = choose|a: int| 0 <= a < ls.len() && (#[trigger] ls[a]).to == r[k].id;
                let s = within(g, t, dir, start, from.depth as nat);
                assert(s.contains(from.id));
                assert(joined(g, t, dir, from.id, ls[a].to));
                assert(step_into(g, t, dir, s, r[k].id));
            }
        }
        assert forall|j: int, k: int| 0 <= j < k < r.len() implies (#[trigger] r[j]).depth <= (
        #[trigger] r[k]).depth by {
            if j < hops.len() {
                assert(r[j] == hops[j]);
            }
            if k < hops.len() {
                assert(r[k] == hops[k]);
            }
        }
        assert forall|j: int, v: NodeId|
            0 <= j < i + 1 && (#[trigger] r[j]).depth < max && #[trigger] joined(
                g,
                t,
                dir,
                r[j].id,
                v,
            ) && g.nodes[v as int].alive_at(t) implies found(r, v, r[j].depth + 1) by {
            assert(r[j] == hops[j]);
            if j < i {
                assert(found(hops, v, hops[j].depth + 1));
                let a = choose|a: int|
                    0 <= a < hops.len() && (#[trigger] hops[a]).id == v && hops[a].depth
                        <= hops[j].depth + 1;
                assert(r[a] == hops[a]);
            } else {
                assert(leads_to(ls, v));
                let a = choose|a: int| 0 <= a < ls.len() && (#[trigger] ls[a]).to == v;
                assert(reach::reached(r, ls[a].to));
                let b = choose|b: int| 0 <= b < r.len() && (#[trigger] r[b]).id == v;
                if b < hops.len() {
                    assert(r[b] == hops[b]);
                }
            }
        }
        assert forall|k: int| 0 <= k < r.len() && i + 1 < r.len() implies (#[trigger] r[k]).depth
            <= r[i + 1].depth + 1 by {
            assert(r[i] == hops[i]);
            if k < hops.len() {
                assert(r[k] == hops[k]);
            }
        }
        assert forall|k: int| 0 < k < r.len() implies (#[trigger] r[k]).depth > 0
            && g.nodes[r[k].id as int].alive_at(t) by {
            if k < hops.len() {
                assert(r[k] == hops[k]);
            }
        }
        assert(r[0] == hops[0]);
    } else {
        assert forall|k: int| 0 <= k < hops.len() && i + 1 < hops.len() implies (
        #[trigger] hops[k]).depth <= hops[i + 1].depth + 1 by {
            assert(hops[i].depth <= hops[i + 1].depth);
        }
    }
}

proof fn lemma_explore(
    g: GraphV,
    t: Ts,
    dir: Direction,
    start: NodeId,
    max: u32,
    hops: Seq<HopV>,
    i: int,
    fuel: nat,
)
    requires
        g.wf(),
        sound(g, t, dir, start, max, hops, i),
        i + fuel >= g.nodes.len(),
    ensures
        ({
            let r = reach::explore(g, t, dir, max, hops, i, fuel);
            sound(g, t, dir, start, max, r, r.len() as int)
        }),
    decreases fuel,
{
    if fuel == 0 || i >= hops.len() {
        reach::lemma_distinct_len(g, hops);
        assert(i == hops.len());
    } else {
        lemma_expand(g, t, dir, start, max, hops, i);
        lemma_explore(
            g,
            t,
            dir,
            start,
            max,
            reach::expand(g, t, dir, max, hops, i),
            i + 1,
            (fuel - 1) as nat,
        );
    }
}

proof fn lemma_complete(
    g: GraphV,
    t: Ts,
    dir: Direction,
    start: NodeId,
    max: u32,
    hops: Seq<HopV>,
    d: nat,
    v: NodeId,
)
    requires
        sound(g, t, dir, start, max, hops, hops.len() as int),
        d <= max,
        within(g, t, dir, start, d).contains(v),
    ensures
        found(hops, v, d as int),
    decreases d,
{
    if d == 0 {
        assert(hops[0].id == v);
    } else {
        let s = within(g, t, dir, start, (d - 1) as nat);
        if s.contains(v) {
            lemma_complete(g, t, dir, start, max, hops, (d - 1) as nat, v);
            let k = choose|k: int|
                0 <= k < hops.len() && (#[trigger] hops[k]).id == v && hops[k].depth <= d - 1;
            assert(hops[k].depth <= d);
        } else {
            assert(step_into(g, t, dir, s, v));
            let u = choose|u: NodeId| #[trigger] s.contains(u) && joined(g, t, dir, u, v);
            lemma_complete(g, t, dir, start, max, hops, (d - 1) as nat, u);
            let j = choose|j: int|
                0 <= j < hops.len() && (#[trigger] hops[j]).id == u && hops[j].depth <= d - 1;
            assert(joined(g, t, dir, hops[j].id, v));
            assert(found(hops, v, hops[j].depth + 1));
            let k = choose|k: int|
                0 <= k < hops.len() && (#[trigger] hops[k]).id == v && hops[k].depth
                    <= hops[j].depth + 1;
            assert(hops[k].depth <= d);
        }
    }
}

/// A node stands in a traversal at a depth of `d` or less exactly where `d`
/// steps or fewer lead to it: what is listed is reachable, what is reachable
/// within the depth asked for is listed, and its depth is that of a shortest
/// way.
pub proof fn traversal_finds_what_is_within_reach(
    g: GraphV,
    start: NodeId,
    t: Ts,
    dir: Direction,
    max_depth: u32,
    v: NodeId,
    d: nat,
)
    requires
        g.wf(),
        start < g.nodes.len(),
        d <= max_depth,
    ensures
        within(g, t, dir, start, d).contains(v) <==> exists|k: int|
            0 <= k < reach::traversal(g, start, t, dir, max_depth).len() && (
            #[trigger] reach::traversal(g, start, t, dir, max_depth)[k]).id == v
                && reach::traversal(g, start, t, dir, max_depth)[k].depth <= d,
{
    let first = seq![HopV { id: start, depth: 0, path: g.nodes[start as int].name }];
    assert(sound(g, t, dir, start, max_depth, first, 0));
    lemma_explore(g, t, dir, start, max_depth, first, 0, g.nodes.len());
    let r = reach::traversal(g, start, t, dir, max_depth);
    if within(g, t, dir, start, d).contains(v) {
        lemma_complete(g, t, dir, start, max_depth, r, d, v);
    }
    if exists|k: int| 0 <= k < r.len() && (#[trigger] r[k]).id == v && r[k].depth <= d {
        let k = choose|k: int| 0 <= k < r.len() && (#[trigger] r[k]).id == v && r[k].depth <= d;
        lemma_within_grows(g, t, dir, start, r[k].depth as nat, d);
    }
}

/// A traversal lists different nodes, nearest first, none deeper than was asked
/// for; the origin stands first, and every other node is alive.
pub proof fn traversal_lists_each_node_once(
    g: GraphV,
    start: NodeId,
    t: Ts,
    dir: Direction,
    max_depth: u32,
)
    requires
        g.wf(),
        start < g.nodes.len(),
    ensures
        ({
            let r = reach::traversal(g, start, t, dir, max_depth);
            &&& reach::distinct(g, r)
            &&& r.len() > 0 && r[0].id == start && r[0].depth == 0
            &&& forall|k: int|
                0 < k < r.len() ==> 0 < (#[trigger] r[k]).depth <= max_depth
                    && g.nodes[r[k].id as int].alive_at(t)
            &&& forall|j: int, k: int|
                0 <= j < k < r.len() ==> (#[trigger] r[j]).depth <= (#[trigger] r[k]).depth
        }),
{
    let first = seq![HopV { id: start, depth: 0, path: g.nodes[start as int].name }];
    assert(sound(g, t, dir, start, max_depth, first, 0));
    lemma_explore(g, t, dir, start, max_depth, first, 0, g.nodes.len());
}

/// The nodes that a change affects: names are listed once, the origin is not
/// among them, and a name is listed exactly where it is that of another node
/// within the depth asked for.
pub proof fn blast_radius_is_exact(
    g: GraphV,
    origin: Seq<char>,
    t: Ts,
    dir: Direction,
    max_depth: u32,
    v: NodeId,
)
    requires
        g.wf(),
        g.ids.contains_key(origin),
        g.nodes[g.ids[origin] as int].alive_at(t),
        v < g.nodes.len(),
    ensures
        ({
            let r = reach::blast_radius_of(g, origin, t, dir, max_depth);
            &&& forall|j: int, k: int|
                0 <= j < k < r.len() ==> (#[trigger] r[j]).node != (#[trigger] r[k]).node
            &&& lists(r, g.nodes[v as int].name) <==> v != g.ids[origin] && within(
                g,
                t,
                dir,
                g.ids[origin],
                max_depth as nat,
            ).contains(v)
        }),
{
    let start = g.ids[origin];
    let h = reach::traversal(g, start, t, dir, max_depth);
    let r = reach::blast_radius_of(g, origin, t, dir, max_depth);
    traversal_lists_each_node_once(g, start, t, dir, max_depth);
    traversal_finds_what_is_within_reach(g, start, t, dir, max_depth, v, max_depth as nat);
    assert(r.len() == h.len() - 1);
    assert forall|k: int| 0 <= k < r.len() implies (#[trigger] r[k]).node == g.nodes[h[k
        + 1].id as int].name by {
        assert(h.skip(1)[k] == h[k + 1]);
    }
    assert forall|j: int, k: int| 0 <= j < k < r.len() implies (#[trigger] r[j]).node != (
    #[trigger] r[k]).node by {
        assert(h[j + 1].id != h[k + 1].id);
        assert(g.ids[g.nodes[h[j + 1].id as int].name] == h[j + 1].id);
        assert(g.ids[g.nodes[h[k + 1].id as int].name] == h[k + 1].id);
    }
    let name = g.nodes[v as int].name;
    assert(g.ids[name] == v);
    if lists(r, name) {
        let k = choose|k: int| 0 <= k < r.len() && (#[trigger] r[k]).node == name;
        assert(g.ids[g.nodes[h[k + 1].id as int].name] == h[k + 1].id);
        assert(h[k + 1].id == v);
        assert(h[0].id != h[k + 1].id);
    }
    if v != start && within(g, t, dir, start, max_depth as nat).contains(v) {
        let k = choose|k: int| 0 <= k < h.len() && (#[trigger] h[k]).id == v && h[k].depth
            <= max_depth;
        assert(r[k - 1].node == name);
    }
}

/// Whether a list names a node.
pub open spec fn lists(r: Seq<ReachV>, name: Seq<char>) -> bool {
    exists|k: int| 0 <= k < r.len() && (#[trigger] r[k]).node == name
}

} // verus!
