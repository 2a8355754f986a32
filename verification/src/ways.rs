//! Laws of traversal, stated over the edges that are followed: what is near lies
//! at the end of a way, what is reached is reached along one, and the text of a
//! path is that way.

use crate::backend;
use crate::export;
use crate::impact;
use crate::model;
use crate::model::{EdgeId, GraphV, NodeId, Ts};
use crate::moments;
use crate::query;
use crate::reach;
use crate::reach::{Direction, HopV, LinkV};
use vstd::prelude::*;

verus! {

/// Record `i` holds at `t`.
pub open spec fn holds(g: GraphV, i: int, t: Ts) -> bool {
    0 <= i < g.edges.len() && g.edges[i].valid_from <= t && t < g.edges[i].valid_to
}

/// An edge that holds at `t` leads from `u` to `v`.
pub open spec fn leads(g: GraphV, t: Ts, u: NodeId, v: NodeId) -> bool {
    exists|i: int| #[trigger] holds(g, i, t) && g.edges[i].src == u && g.edges[i].dst == v
}

/// Each node of the way is led to from the one before it; with `live`, each that
/// is led to has a version in force.
pub open spec fn is_way(g: GraphV, t: Ts, live: bool, way: Seq<NodeId>) -> bool {
    &&& way.len() > 0
    &&& forall|k: int, m: int|
        0 <= k && m == k + 1 && m < way.len() ==> leads(g, t, #[trigger] way[k], #[trigger] way[m])
            && (live ==> moments::in_force(g.nodes[way[m] as int], t))
}

/// A way of at most `d` steps leads from a member of `s` to `v`.
pub open spec fn is_near(g: GraphV, s: Set<NodeId>, t: Ts, live: bool, d: nat, v: NodeId) -> bool {
    exists|way: Seq<NodeId>| #[trigger]
        is_way(g, t, live, way) && s.contains(way[0]) && way.last() == v && way.len() <= d + 1
}

/// What is near a set is what ways of so many steps or fewer lead to from it,
/// along edges in their direction, all of it.
pub proof fn near_is_what_ways_lead_to(
    g: GraphV,
    s: Set<NodeId>,
    t: Ts,
    live: bool,
    d: nat,
    v: NodeId,
)
    ensures
        backend::near(g, s, t, live, d).contains(v) <==> is_near(g, s, t, live, d, v),
    decreases d,
{
    if d == 0 {
        if s.contains(v) {
            let way = seq![v];
            assert(is_way(g, t, live, way));
        }
    } else {
        let before = backend::near(g, s, t, live, (d - 1) as nat);
        near_is_what_ways_lead_to(g, s, t, live, (d - 1) as nat, v);
        if backend::near(g, s, t, live, d).contains(v) {
            if before.contains(v) {
                let way = choose|way: Seq<NodeId>| #[trigger]
                    is_way(g, t, live, way) && s.contains(way[0]) && way.last() == v && way.len()
                        <= d;
                assert(is_way(g, t, live, way) && way.len() <= d + 1);
            } else {
                let eid = choose|eid: int| #[trigger]
                    backend::leads(g, before, t, live, eid, v);
                let u = g.edges[eid].src;
                near_is_what_ways_lead_to(g, s, t, live, (d - 1) as nat, u);
                let way = choose|way: Seq<NodeId>| #[trigger]
                    is_way(g, t, live, way) && s.contains(way[0]) && way.last() == u && way.len()
                        <= d;
                let more = way.push(v);
                moments::alive_is_within_an_interval(g.nodes[v as int], t);
                assert(holds(g, eid, t));
                assert(leads(g, t, u, v));
                assert(is_way(g, t, live, more)) by {
                    assert forall|k: int, m: int| 0 <= k && m == k + 1 && m < more.len() implies leads(
                        g,
                        t,
                        #[trigger] more[k],
                        #[trigger] more[m],
                    ) && (live ==> moments::in_force(g.nodes[more[m] as int], t)) by {
                        if m < way.len() {
                            assert(more[k] == way[k] && more[m] == way[m]);
                        } else {
                            assert(more[k] == way.last());
                        }
                    }
                }
                assert(more[0] == way[0] && more.last() == v);
            }
        }
        if is_near(g, s, t, live, d, v) {
            let way = choose|way: Seq<NodeId>| #[trigger]
                is_way(g, t, live, way) && s.contains(way[0]) && way.last() == v && way.len() <= d
                    + 1;
            if way.len() <= d {
                assert(is_near(g, s, t, live, (d - 1) as nat, v));
            } else {
                let short = way.drop_last();
                let u = short.last();
                assert(is_way(g, t, live, short)) by {
                    assert forall|k: int, m: int|
                        0 <= k && m == k + 1 && m < short.len() implies leads(
                        g,
                        t,
                        #[trigger] short[k],
                        #[trigger] short[m],
                    ) && (live ==> moments::in_force(g.nodes[short[m] as int], t)) by {
                        assert(short[k] == way[k] && short[m] == way[m]);
                    }
                }
                assert(short[0] == way[0]);
                assert(is_near(g, s, t, live, (d - 1) as nat, u));
                near_is_what_ways_lead_to(g, s, t, live, (d - 1) as nat, u);
                let a = way.len() - 2;
                assert(leads(g, t, way[a], way[a + 1]));
                let i = choose|i: int| #[trigger]
                    holds(g, i, t) && g.edges[i].src == way[a] && g.edges[i].dst == way[a + 1];
                moments::alive_is_within_an_interval(g.nodes[v as int], t);
                assert(backend::leads(g, before, t, live, i, v));
            }
        }
    }
}

/// A step of a traversal: along an edge that holds, down it or up it as asked.
pub open spec fn steps(g: GraphV, t: Ts, dir: Direction, u: NodeId, v: NodeId) -> bool {
    (dir != Direction::Up && leads(g, t, u, v)) || (dir != Direction::Down && leads(g, t, v, u))
}

/// Each node of the way is a step from the one before it and has a version in
/// force.
pub open spec fn is_route(g: GraphV, t: Ts, dir: Direction, way: Seq<NodeId>) -> bool {
    &&& way.len() > 0
    &&& forall|k: int, m: int|
        0 <= k && m == k + 1 && m < way.len() ==> steps(
            g,
            t,
            dir,
            #[trigger] way[k],
            #[trigger] way[m],
        ) && way[m] < g.nodes.len() && moments::in_force(g.nodes[way[m] as int], t)
}

/// A route of at most `d` steps leads from `start` to `v`.
pub open spec fn is_reached(
    g: GraphV,
    t: Ts,
    dir: Direction,
    start: NodeId,
    d: nat,
    v: NodeId,
) -> bool {
    exists|way: Seq<NodeId>| #[trigger]
        is_route(g, t, dir, way) && way[0] == start && way.last() == v && way.len() <= d + 1
}

proof fn lemma_steps(g: GraphV, t: Ts, dir: Direction, u: NodeId, v: NodeId)
    ensures
        impact::joined(g, t, dir, u, v) == steps(g, t, dir, u, v),
{
    if impact::joined(g, t, dir, u, v) {
        let i = choose|i: int| #[trigger] impact::joins(g, t, dir, u, v, i);
        assert(holds(g, i, t));
    }
    if dir != Direction::Up && leads(g, t, u, v) {
        let i = choose|i: int| #[trigger]
            holds(g, i, t) && g.edges[i].src == u && g.edges[i].dst == v;
        assert(impact::joins(g, t, dir, u, v, i));
    }
    if dir != Direction::Down && leads(g, t, v, u) {
        let i = choose|i: int| #[trigger]
            holds(g, i, t) && g.edges[i].src == v && g.edges[i].dst == u;
        assert(impact::joins(g, t, dir, u, v, i));
    }
}

proof fn lemma_within(g: GraphV, t: Ts, dir: Direction, start: NodeId, d: nat, v: NodeId)
    ensures
        impact::within(g, t, dir, start, d).contains(v) <==> is_reached(g, t, dir, start, d, v),
    decreases d,
{
    if d == 0 {
        if v == start {
            let way = seq![v];
            assert(is_route(g, t, dir, way));
        }
    } else {
        let before = impact::within(g, t, dir, start, (d - 1) as nat);
        lemma_within(g, t, dir, start, (d - 1) as nat, v);
        if impact::within(g, t, dir, start, d).contains(v) {
            if before.contains(v) {
                let way = choose|way: Seq<NodeId>| #[trigger]
                    is_route(g, t, dir, way) && way[0] == start && way.last() == v && way.len()
                        <= d;
                assert(is_route(g, t, dir, way) && way.len() <= d + 1);
            } else {
                assert(impact::step_into(g, t, dir, before, v));
                let u = choose|u: NodeId| #[trigger]
                    before.contains(u) && impact::joined(g, t, dir, u, v);
                lemma_within(g, t, dir, start, (d - 1) as nat, u);
                lemma_steps(g, t, dir, u, v);
                moments::alive_is_within_an_interval(g.nodes[v as int], t);
                let way = choose|way: Seq<NodeId>| #[trigger]
                    is_route(g, t, dir, way) && way[0] == start && way.last() == u && way.len()
                        <= d;
                let more = way.push(v);
                assert(is_route(g, t, dir, more)) by {
                    assert forall|k: int, m: int| 0 <= k && m == k + 1 && m < more.len() implies steps(
                        g,
                        t,
                        dir,
                        #[trigger] more[k],
                        #[trigger] more[m],
                    ) && more[m] < g.nodes.len() && moments::in_force(
                        g.nodes[more[m] as int],
                        t,
                    ) by {
                        if m < way.len() {
                            assert(more[k] == way[k] && more[m] == way[m]);
                        } else {
                            assert(more[k] == way.last());
                        }
                    }
                }
                assert(more[0] == way[0] && more.last() == v);
            }
        }
        if is_reached(g, t, dir, start, d, v) {
            let way = choose|way: Seq<NodeId>| #[trigger]
                is_route(g, t, dir, way) && way[0] == start && way.last() == v && way.len() <= d + 1;
            if way.len() <= d {
                assert(is_reached(g, t, dir, start, (d - 1) as nat, v));
            } else {
                let short = way.drop_last();
                let u = short.last();
                assert(is_route(g, t, dir, short)) by {
                    assert forall|k: int, m: int|
                        0 <= k && m == k + 1 && m < short.len() implies steps(
                        g,
                        t,
                        dir,
                        #[trigger] short[k],
                        #[trigger] short[m],
                    ) && short[m] < g.nodes.len() && moments::in_force(
                        g.nodes[short[m] as int],
                        t,
                    ) by {
                        assert(short[k] == way[k] && short[m] == way[m]);
                    }
                }
                assert(short[0] == way[0]);
                assert(is_reached(g, t, dir, start, (d - 1) as nat, u));
                lemma_within(g, t, dir, start, (d - 1) as nat, u);
                let a = way.len() - 2;
                assert(steps(g, t, dir, way[a], way[a + 1]));
                lemma_steps(g, t, dir, u, v);
                moments::alive_is_within_an_interval(g.nodes[v as int], t);
                assert(before.contains(u));
                assert(impact::step_into(g, t, dir, before, v));
            }
        }
    }
}

/// What a change of a node affects: a node is listed at a depth of `d` or less
/// exactly where a route of `d` steps or fewer leads to it, over edges that hold
/// and nodes in force, in the direction asked for.
pub proof fn reached_nodes_lie_on_routes(
    g: GraphV,
    start: NodeId,
    t: Ts,
    dir: Direction,
    max_depth: u32,
    v: NodeId,
    d: nat,
)
    requires
        g.wf(),
        start < g.nodes.len(),
        d <= max_depth,
    ensures
        is_reached(g, t, dir, start, d, v) <==> exists|k: int|
            0 <= k < reach::traversal(g, start, t, dir, max_depth).len() && (
            #[trigger] reach::traversal(g, start, t, dir, max_depth)[k]).id == v
                && reach::traversal(g, start, t, dir, max_depth)[k].depth <= d,
{
    impact::traversal_finds_what_is_within_reach(g, start, t, dir, max_depth, v, d);
    lemma_within(g, t, dir, start, d, v);
}

/// Hop `k` continues hop `j` along record `i`: one deeper, and its path is that of
/// hop `j`, an arrow with the kind of the edge in the direction that it has, and
/// the node's name.
pub open spec fn continues(
    g: GraphV,
    t: Ts,
    dir: Direction,
    hops: Seq<HopV>,
    k: int,
    j: int,
    i: int,
) -> bool {
    &&& 0 <= j < k
    &&& holds(g, i, t)
    &&& hops[k].depth == hops[j].depth + 1
    &&& ({
        ||| dir != Direction::Up && g.edges[i].src == hops[j].id && g.edges[i].dst == hops[k].id
            && hops[k].path == hops[j].path + " -["@ + g.kinds[g.edges[i].kind_id as int] + "]-> "@
            + g.nodes[hops[k].id as int].name
        ||| dir != Direction::Down && g.edges[i].dst == hops[j].id && g.edges[i].src == hops[k].id
            && hops[k].path == hops[j].path + " <["@ + g.kinds[g.edges[i].kind_id as int] + "]- "@
            + g.nodes[hops[k].id as int].name
    })
}

spec fn is_link(g: GraphV, t: Ts, dir: Direction, u: NodeId, l: LinkV, i: int) -> bool {
    &&& holds(g, i, t)
    &&& l.kind_id == g.edges[i].kind_id
    &&& if l.down {
        dir != Direction::Up && g.edges[i].src == u && g.edges[i].dst == l.to
    } else {
        dir != Direction::Down && g.edges[i].dst == u && g.edges[i].src == l.to
    }
}

spec fn is_some_link(g: GraphV, t: Ts, dir: Direction, u: NodeId, l: LinkV) -> bool {
    exists|i: int| is_link(g, t, dir, u, l, i)
}

proof fn lemma_link(g: GraphV, t: Ts, dir: Direction, u: NodeId, k: int) -> (i: int)
    requires
        g.wf(),
        0 <= k < reach::links(g, u, t, dir).len(),
    ensures
        is_link(g, t, dir, u, reach::links(g, u, t, dir)[k], i),
{
    let ls = reach::links(g, u, t, dir);
    let p = reach::holding(g, t);
    let outs = g.out_ids(u).filter(p);
    let ins = g.in_ids(u).filter(p);
    model::lemma_edge_ids(g.edges, model::leaves(u));
    model::lemma_edge_ids(g.edges, model::arrives(u));
    query::lemma_filter_members(g.out_ids(u), p);
    query::lemma_filter_members(g.in_ids(u), p);
    let first = if dir == Direction::Up {
        Seq::<LinkV>::empty()
    } else {
        reach::down_links(g, u, t)
    };
    if k < first.len() {
        let e = outs[k];
        assert(g.out_ids(u).contains(e) && p(e));
        let m = g.out_ids(u).index_of(e);
        assert(model::leaves(u)(g.edges[g.out_ids(u)[m] as int]));
        assert(ls[k] == reach::down_links(g, u, t)[k]);
        e as int
    } else {
        let q = k - first.len();
        let e = ins[q];
        assert(g.in_ids(u).contains(e) && p(e));
        let m = g.in_ids(u).index_of(e);
        assert(model::arrives(u)(g.edges[g.in_ids(u)[m] as int]));
        assert(ls[k] == reach::up_links(g, u, t)[q]);
        e as int
    }
}

/// Hop `k` continues some earlier one.
spec fn has_origin(g: GraphV, t: Ts, dir: Direction, hops: Seq<HopV>, k: int) -> bool {
    exists|j: int, i: int| #[trigger] continues(g, t, dir, hops, k, j, i)
}

proof fn lemma_visit_traced(
    g: GraphV,
    t: Ts,
    dir: Direction,
    hops: Seq<HopV>,
    at: int,
    ls: Seq<LinkV>,
)
    requires
        0 <= at < hops.len(),
        hops[at].depth < u32::MAX,
        forall|k: int| 0 < k < hops.len() ==> #[trigger] has_origin(g, t, dir, hops, k),
        forall|k: int|
            0 <= k < ls.len() ==> is_some_link(g, t, dir, hops[at].id, #[trigger] ls[k]),
    ensures
        ({
            let r = reach::visit_all(g, t, hops, hops[at], ls);
            &&& hops.is_prefix_of(r)
            &&& forall|k: int| 0 < k < r.len() ==> #[trigger] has_origin(g, t, dir, r, k)
        }),
    decreases ls.len(),
{
    if ls.len() > 0 {
        let front = ls.drop_last();
        assert forall|k: int| 0 <= k < front.len() implies is_some_link(
            g,
            t,
            dir,
            hops[at].id,
            #[trigger] front[k],
        ) by {
            assert(front[k] == ls[k]);
        }
        lemma_visit_traced(g, t, dir, hops, at, front);
        let m = reach::visit_all(g, t, hops, hops[at], front);
        let r = reach::visit_all(g, t, hops, hops[at], ls);
        let l = ls.last();
        assert(ls[ls.len() - 1] == l);
        let i = choose|i: int| is_link(g, t, dir, hops[at].id, l, i);
        assert(m[at] == hops[at]);
        assert forall|k: int| 0 < k < r.len() implies #[trigger] has_origin(g, t, dir, r, k) by {
            if k < m.len() {
                assert(has_origin(g, t, dir, m, k));
                let (j, e) = choose|j: int, e: int| #[trigger] continues(g, t, dir, m, k, j, e);
                assert(r[k] == m[k] && r[j] == m[j]);
                assert(continues(g, t, dir, r, k, j, e));
            } else {
                assert(r[at] == hops[at]);
                assert(continues(g, t, dir, r, k, at, i));
            }
        }
    }
}

proof fn lemma_explore_traced(
    g: GraphV,
    t: Ts,
    dir: Direction,
    max_depth: u32,
    hops: Seq<HopV>,
    n: int,
    fuel: nat,
)
    requires
        g.wf(),
        0 <= n,
        hops.len() > 0,
        forall|k: int| 0 < k < hops.len() ==> #[trigger] has_origin(g, t, dir, hops, k),
    ensures
        ({
            let r = reach::explore(g, t, dir, max_depth, hops, n, fuel);
            &&& r.len() > 0
            &&& r[0] == hops[0]
            &&& forall|k: int| 0 < k < r.len() ==> #[trigger] has_origin(g, t, dir, r, k)
        }),
    decreases fuel,
{
    if fuel > 0 && n < hops.len() {
        let next = reach::expand(g, t, dir, max_depth, hops, n);
        if hops[n].depth < max_depth {
            let ls = reach::links(g, hops[n].id, t, dir);
            assert forall|k: int| 0 <= k < ls.len() implies is_some_link(
                g,
                t,
                dir,
                hops[n].id,
                #[trigger] ls[k],
            ) by {
                let i = lemma_link(g, t, dir, hops[n].id, k);
            }
            lemma_visit_traced(g, t, dir, hops, n, ls);
        }
        lemma_explore_traced(g, t, dir, max_depth, next, n + 1, (fuel - 1) as nat);
    }
}

/// The path of what is reached retraces the edges: it begins with the name of the
/// origin, and every further node continues the path of one that was reached
/// before it, over an edge that holds, with the kind of that edge and an arrow
/// that points as the edge does.
pub proof fn paths_retrace_the_edges(
    g: GraphV,
    start: NodeId,
    t: Ts,
    dir: Direction,
    max_depth: u32,
    k: int,
)
    requires
        g.wf(),
        start < g.nodes.len(),
        0 <= k < reach::traversal(g, start, t, dir, max_depth).len(),
    ensures
        ({
            let hops = reach::traversal(g, start, t, dir, max_depth);
            &&& hops[0].path == g.nodes[start as int].name
            &&& k > 0 ==> exists|j: int, i: int| #[trigger]
                continues(g, t, dir, hops, k, j, i)
        }),
{
    let first = seq![HopV { id: start, depth: 0, path: g.nodes[start as int].name }];
    lemma_explore_traced(g, t, dir, max_depth, first, 0, g.nodes.len());
    let hops = reach::traversal(g, start, t, dir, max_depth);
    if k > 0 {
        assert(has_origin(g, t, dir, hops, k));
    }
}

/// What is reported of a node that is known and in force is each further node that
/// was reached, in order, with its name, its type, its depth and its path; of any
/// other nothing is.
pub proof fn report_is_what_was_reached(
    g: GraphV,
    origin: Seq<char>,
    t: Ts,
    dir: Direction,
    max_depth: u32,
)
    requires
        g.wf(),
    ensures
        ({
            let r = reach::blast_radius_of(g, origin, t, dir, max_depth);
            &&& (forall|n: int|
                0 <= n < g.nodes.len() && (#[trigger] g.nodes[n]).name == origin
                    ==> !moments::in_force(g.nodes[n], t)) ==> r.len() == 0
            &&& forall|n: NodeId|
                n < g.nodes.len() && (#[trigger] g.nodes[n as int]).name == origin
                    && moments::in_force(g.nodes[n as int], t) ==> {
                    let hops = reach::traversal(g, n, t, dir, max_depth);
                    &&& r.len() + 1 == hops.len()
                    &&& forall|k: int|
                        0 <= k < r.len() ==> (#[trigger] r[k]).node == g.nodes[hops[k
                            + 1].id as int].name && r[k].node_type == g.types[g.nodes[hops[k
                            + 1].id as int].type_id as int] && r[k].depth == hops[k + 1].depth
                            && r[k].path == hops[k + 1].path
                }
        }),
{
    assert forall|n: NodeId|
        n < g.nodes.len() && (#[trigger] g.nodes[n as int]).name == origin implies g.id_of(origin)
        == Some(n) by {
        assert(g.ids[g.nodes[n as int].name] == n);
    }
    if g.ids.contains_key(origin) {
        let id = g.ids[origin];
        moments::alive_is_within_an_interval(g.nodes[id as int], t);
        assert(g.nodes[id as int].name == origin);
        if g.nodes[id as int].alive_at(t) {
            impact::traversal_lists_each_node_once(g, id, t, dir, max_depth);
        }
    }
}

// ---------------------------------------------------------------------------
// Lists of edges
// ---------------------------------------------------------------------------

/// An export lists every record of an edge once, by the node that it leaves, and
/// of one node in the order of observation.
pub proof fn export_lists_every_edge(g: GraphV)
    requires
        g.wf(),
    ensures
        ({
            let l = export::listed(g, g.nodes.len() as int);
            &&& forall|e: EdgeId| #[trigger] l.contains(e) <==> e < g.edges.len()
            &&& forall|i: int, j: int|
                0 <= i < j < l.len() ==> g.edges[(#[trigger] l[i]) as int].src < g.edges[(
                #[trigger] l[j]) as int].src || (g.edges[l[i] as int].src
                    == g.edges[l[j] as int].src && l[i] < l[j])
        }),
{
    lemma_listed(g, g.nodes.len());
    let l = export::listed(g, g.nodes.len() as int);
    assert forall|e: EdgeId| #[trigger] l.contains(e) <==> e < g.edges.len() by {
        if e < g.edges.len() {
            assert(g.edges[e as int].src < g.nodes.len());
        }
        if l.contains(e) {
            let k = l.index_of(e);
            assert(l[k] < g.edges.len());
        }
    }
}

proof fn lemma_listed(g: GraphV, n: nat)
    requires
        g.wf(),
        n <= g.nodes.len(),
    ensures
        ({
            let l = export::listed(g, n as int);
            &&& forall|k: int|
                0 <= k < l.len() ==> (#[trigger] l[k]) < g.edges.len() && g.edges[l[k] as int].src
                    < n
            &&& forall|e: EdgeId|
                #![trigger l.contains(e)]
                e < g.edges.len() && g.edges[e as int].src < n ==> l.contains(e)
            &&& forall|i: int, j: int|
                0 <= i < j < l.len() ==> g.edges[(#[trigger] l[i]) as int].src < g.edges[(
                #[trigger] l[j]) as int].src || (g.edges[l[i] as int].src
                    == g.edges[l[j] as int].src && l[i] < l[j])
        }),
    decreases n,
{
    if n > 0 {
        lemma_listed(g, (n - 1) as nat);
        let u = (n - 1) as u32;
        let a = export::listed(g, n - 1);
        let b = g.out_ids(u);
        let l = export::listed(g, n as int);
        model::lemma_edge_ids(g.edges, model::leaves(u));
        assert forall|k: int| 0 <= k < l.len() implies (#[trigger] l[k]) < g.edges.len()
            && g.edges[l[k] as int].src < n by {
            if k < a.len() {
                assert(l[k] == a[k]);
            } else {
                assert(l[k] == b[k - a.len()]);
                assert(model::leaves(u)(g.edges[b[k - a.len()] as int]));
            }
        }
        assert forall|e: EdgeId|
            #![trigger l.contains(e)]
            e < g.edges.len() && g.edges[e as int].src < n implies l.contains(e) by {
            if g.edges[e as int].src == u {
                assert(model::leaves(u)(g.edges[e as int]));
                assert(b.contains(e));
                let k = b.index_of(e);
                assert(l[a.len() + k] == e);
            } else {
                assert(a.contains(e));
                let k = a.index_of(e);
                assert(l[k] == e);
            }
        }
        assert forall|i: int, j: int| 0 <= i < j < l.len() implies g.edges[(
        #[trigger] l[i]) as int].src < g.edges[(#[trigger] l[j]) as int].src || (
        g.edges[l[i] as int].src == g.edges[l[j] as int].src && l[i] < l[j]) by {
            if j < a.len() {
                assert(l[i] == a[i] && l[j] == a[j]);
            } else {
                assert(l[j] == b[j - a.len()]);
                assert(model::leaves(u)(g.edges[b[j - a.len()] as int]));
                if i < a.len() {
                    assert(l[i] == a[i]);
                } else {
                    assert(l[i] == b[i - a.len()]);
                    assert(model::leaves(u)(g.edges[b[i - a.len()] as int]));
                }
            }
        }
    }
}

/// A batch of weights takes the place of those with its keys and leaves the others.
pub proof fn other_weights_stay(
    w: Map<u64, backend::EdgeState>,
    deltas: Seq<(u64, backend::EdgeState)>,
    key: u64,
)
    requires
        forall|i: int| 0 <= i < deltas.len() ==> (#[trigger] deltas[i]).0 != key,
    ensures
        backend::flushed(w, deltas).contains_key(key) == w.contains_key(key),
        w.contains_key(key) ==> backend::flushed(w, deltas)[key] == w[key],
    decreases deltas.len(),
{
    if deltas.len() > 0 {
        let front = deltas.drop_last();
        assert forall|i: int| 0 <= i < front.len() implies (#[trigger] front[i]).0 != key by {
            assert(front[i] == deltas[i]);
        }
        other_weights_stay(w, front, key);
        assert(deltas[deltas.len() - 1].0 != key);
    }
}

} // verus!
