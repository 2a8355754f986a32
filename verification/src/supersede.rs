//! What the contradictions that consolidation finds are, and what following its
//! proposals does.

use crate::history;
use crate::interner;
use crate::model;
use crate::model::{EdgeId, GraphV, NodeId, OpV, Ts, T_MAX};
use crate::query;
use crate::salience;
use crate::salience::ConflictV;
use vstd::prelude::*;

verus! {

/// The open records of one node that are of one functional kind.
pub open spec fn rivals(g: GraphV, kinds: Seq<Seq<char>>, u: NodeId, kind_id: u32) -> Seq<EdgeId> {
    g.out_ids(u).filter(salience::functional(g, kinds)).filter(salience::of_kind(g, kind_id))
}

/// A record is among the rivals.
pub open spec fn is_rival(
    g: GraphV,
    kinds: Seq<Seq<char>>,
    u: NodeId,
    kind_id: u32,
    eid: EdgeId,
) -> bool {
    &&& eid < g.edges.len()
    &&& g.edges[eid as int].src == u
    &&& g.edges[eid as int].kind_id == kind_id
    &&& g.edges[eid as int].valid_to == T_MAX
    &&& kinds.contains(g.kinds[kind_id as int])
}

proof fn lemma_rivals(g: GraphV, kinds: Seq<Seq<char>>, u: NodeId, kind_id: u32)
    requires
        g.wf(),
    ensures
        forall|eid: EdgeId| #[trigger]
            rivals(g, kinds, u, kind_id).contains(eid) ==> is_rival(g, kinds, u, kind_id, eid),
{
    let out = g.out_ids(u);
    let p = salience::functional(g, kinds);
    let q = salience::of_kind(g, kind_id);
    model::lemma_edge_ids(g.edges, model::leaves(u));
    query::lemma_filter_members(out, p);
    query::lemma_filter_members(out.filter(p), q);
    let rs = rivals(g, kinds, u, kind_id);
    assert forall|eid: EdgeId| #[trigger] rs.contains(eid) implies is_rival(
        g,
        kinds,
        u,
        kind_id,
        eid,
    ) by {
        let k = rs.index_of(eid);
        assert(rs[k] == eid);
        let f = out.filter(p);
        assert(f.contains(rs[k]) && q(rs[k]));
        let m = f.index_of(eid);
        assert(out.contains(f[m]) && p(f[m]));
        let n = out.index_of(eid);
        assert(out[n] == eid);
        assert(model::leaves(u)(g.edges[out[n] as int]));
    }
}

/// Records of a graph are closed, and nothing else is changed.
pub open spec fn closed_only(g: GraphV, h: GraphV, eids: Seq<EdgeId>) -> bool {
    &&& h.nodes == g.nodes
    &&& h.ids == g.ids
    &&& h.kinds == g.kinds
    &&& h.edges.len() == g.edges.len()
    &&& forall|i: int|
        0 <= i < g.edges.len() ==> if eids.contains(i as EdgeId) {
            (#[trigger] h.edges[i]).valid_to != T_MAX && h.edges[i].key() == g.edges[i].key()
        } else {
            h.edges[i] == g.edges[i]
        }
}

/// Open records that are retired one by one are closed, and no others are.
proof fn lemma_retired(g: GraphV, eids: Seq<EdgeId>, ts: Ts)
    requires
        g.wf(),
        history::one_open_record(g),
        ts < T_MAX,
        forall|k: int|
            0 <= k < eids.len() ==> (#[trigger] eids[k]) < g.edges.len()
                && g.edges[eids[k] as int].valid_to == T_MAX,
    ensures
        closed_only(g, g.apply_all(eids.map_values(salience::retiring(g, ts))), eids),
        forall|key: (NodeId, NodeId, u32)|
            g.open.contains_key(key) && !eids.contains(#[trigger] g.open[key]) ==> g.apply_all(
                eids.map_values(salience::retiring(g, ts)),
            ).open.contains_key(key) && g.apply_all(
                eids.map_values(salience::retiring(g, ts)),
            ).open[key] == g.open[key],
        forall|k: int|
            0 <= k < eids.len() ==> !g.apply_all(
                eids.map_values(salience::retiring(g, ts)),
            ).open.contains_key((#[trigger] g.edges[eids[k] as int]).key()),
    decreases eids.len(),
{
    let f = salience::retiring(g, ts);
    let ops = eids.map_values(f);
    if eids.len() > 0 {
        let front = eids.drop_last();
        lemma_retired(g, front, ts);
        assert(ops.drop_last() =~= front.map_values(f));
        let h = g.apply_all(front.map_values(f));
        let eid = eids.last();
        let e = g.edges[eid as int];
        assert(eids[eids.len() - 1] == eid);
        assert(ops.last() == f(eid));
        interner::lemma_number_of(g.kinds, e.kind_id as int);
        assert(g.kinds.contains(g.kinds[e.kind_id as int]));
        let r = h.apply(ops.last());
        assert(g.open[e.key()] == eid);
        assert forall|x: EdgeId| #[trigger]
            eids.contains(x) == (front.contains(x) || x == eid) by {
            if front.contains(x) {
                assert(eids[front.index_of(x)] == x);
            }
            if eids.contains(x) && x != eid {
                assert(front[eids.index_of(x)] == x);
            }
        }
        if front.contains(eid) {
            let k = front.index_of(eid);
            assert(!h.open.contains_key(g.edges[front[k] as int].key()));
            assert(r == h);
        } else {
            assert(h.open.contains_key(e.key()) && h.open[e.key()] == eid);
            assert(r == h.close_edge(eid, ts));
        }
        assert forall|key: (NodeId, NodeId, u32)|
            g.open.contains_key(key) && !eids.contains(
                #[trigger] g.open[key],
            ) implies r.open.contains_key(key) && r.open[key] == g.open[key] by {
            assert(!front.contains(g.open[key]));
            assert(g.open[key] != eid);
        }
        assert forall|k: int| 0 <= k < eids.len() implies !r.open.contains_key(
            (#[trigger] g.edges[eids[k] as int]).key(),
        ) by {
            if k < front.len() {
                assert(front[k] == eids[k]);
                assert(!h.open.contains_key(g.edges[front[k] as int].key()));
            }
        }
    }
}

/// Only kinds that were declared functional are checked: a contradiction is among
/// open records of one source and one such kind, and all that is proposed is to
/// retire relations of that source and kind.
pub proof fn conflict_is_of_a_functional_kind(
    g: GraphV,
    kinds: Seq<Seq<char>>,
    u: NodeId,
    kind_id: u32,
    weights: Seq<u32>,
    ts: Ts,
)
    requires
        g.wf(),
    ensures
        salience::conflict_among(g, rivals(g, kinds, u, kind_id), weights, ts) matches Some(c) ==> {
            &&& kinds.contains(c.kind)
            &&& forall|i: int|
                0 <= i < c.superseded.len() ==> (#[trigger] c.superseded[i] matches OpV::RetireEdge {
                    src,
                    kind,
                    ts: t,
                    ..
                } && src == c.src && kind == c.kind && t == ts)
        },
{
    let group = rivals(g, kinds, u, kind_id);
    lemma_rivals(g, kinds, u, kind_id);
    if group.len() >= 2 {
        let best = salience::heaviest(weights, group);
        salience::winner_has_the_most_weight(weights, group, 0);
        assert(is_rival(g, kinds, u, kind_id, best));
        let others = group.filter(salience::other_record(best));
        query::lemma_filter_members(group, salience::other_record(best));
        let c = salience::conflict_among(g, group, weights, ts)->0;
        assert forall|i: int| 0 <= i < c.superseded.len() implies (
        #[trigger] c.superseded[i] matches OpV::RetireEdge { src, kind, ts: t, .. } && src == c.src
            && kind == c.kind && t == ts) by {
            assert(group.contains(others[i]));
            assert(is_rival(g, kinds, u, kind_id, others[i]));
            assert(c.superseded[i] == salience::retiring(g, ts)(others[i]));
        }
    }
}

/// Following a proposal resolves the contradiction: of the records that
/// contradicted each other the one with the most weight stays open and the others
/// are closed, and no other record is changed.
pub proof fn resolved_conflict_leaves_the_winner(
    g: GraphV,
    kinds: Seq<Seq<char>>,
    u: NodeId,
    kind_id: u32,
    weights: Seq<u32>,
    ts: Ts,
)
    requires
        g.wf(),
        history::one_open_record(g),
        ts < T_MAX,
        rivals(g, kinds, u, kind_id).len() >= 2,
    ensures
        ({
            let group = rivals(g, kinds, u, kind_id);
            let best = salience::heaviest(weights, group);
            let c = salience::conflict_among(g, group, weights, ts)->0;
            let h = g.apply_all(c.superseded);
            &&& group.contains(best)
            &&& h.edges[best as int] == g.edges[best as int]
            &&& h.edges[best as int].valid_to == T_MAX
            &&& forall|i: int|
                0 <= i < g.edges.len() && i != best && group.contains(i as EdgeId)
                    ==> (#[trigger] h.edges[i]).valid_to != T_MAX
            &&& forall|i: int|
                0 <= i < g.edges.len() && !group.contains(i as EdgeId) ==> #[trigger] h.edges[i]
                    == g.edges[i]
        }),
{
    let group = rivals(g, kinds, u, kind_id);
    lemma_rivals(g, kinds, u, kind_id);
    let best = salience::heaviest(weights, group);
    salience::winner_has_the_most_weight(weights, group, 0);
    assert(is_rival(g, kinds, u, kind_id, best));
    let p = salience::other_record(best);
    let others = group.filter(p);
    query::lemma_filter_members(group, p);
    assert forall|k: int| 0 <= k < others.len() implies (#[trigger] others[k]) < g.edges.len()
        && g.edges[others[k] as int].valid_to == T_MAX by {
        assert(group.contains(others[k]));
        assert(is_rival(g, kinds, u, kind_id, others[k]));
    }
    lemma_retired(g, others, ts);
    assert(!others.contains(best)) by {
        if others.contains(best) {
            let k = others.index_of(best);
            assert(p(others[k]));
        }
    }
    assert forall|x: EdgeId| !group.contains(x) implies !#[trigger] others.contains(x) by {
        if others.contains(x) {
            assert(group.contains(others[others.index_of(x)]));
        }
    }
    let h = g.apply_all(others.map_values(salience::retiring(g, ts)));
    assert(h.edges[best as int] == g.edges[best as int]);
    assert forall|i: int|
        0 <= i < g.edges.len() && i != best && group.contains(
            i as EdgeId,
        ) implies (#[trigger] h.edges[i]).valid_to != T_MAX by {
        assert(p(i as EdgeId));
        assert(others.contains(i as EdgeId));
    }
}

/// The contradiction of a source and a kind, if there is one.
pub open spec fn contradiction(
    g: GraphV,
    kinds: Seq<Seq<char>>,
    u: NodeId,
    kind_id: u32,
    weights: Seq<u32>,
    ts: Ts,
) -> Option<ConflictV> {
    salience::conflict_among(g, rivals(g, kinds, u, kind_id), weights, ts)
}

/// Whether a contradiction is one of some source and kind.
pub open spec fn is_contradiction(
    g: GraphV,
    kinds: Seq<Seq<char>>,
    weights: Seq<u32>,
    ts: Ts,
    c: ConflictV,
) -> bool {
    exists|u: NodeId, k: u32| #[trigger] contradiction(g, kinds, u, k, weights, ts) == Some(c)
}

proof fn lemma_at(g: GraphV, eids: Seq<EdgeId>, ks: Seq<u32>, weights: Seq<u32>, ts: Ts)
    ensures
        forall|i: int|
            0 <= i < salience::conflicts_at(g, eids, ks, weights, ts).len() ==> exists|k: u32|
                salience::conflict_among(
                    g,
                    #[trigger] eids.filter(salience::of_kind(g, k)),
                    weights,
                    ts,
                ) == Some(#[trigger] salience::conflicts_at(g, eids, ks, weights, ts)[i]),
        forall|k: u32, c: ConflictV|
            #![trigger ks.contains(k), salience::conflicts_at(g, eids, ks, weights, ts).contains(c)]
            ks.contains(k) && salience::conflict_among(
                g,
                eids.filter(salience::of_kind(g, k)),
                weights,
                ts,
            ) == Some(c) ==> salience::conflicts_at(g, eids, ks, weights, ts).contains(c),
    decreases ks.len(),
{
    if ks.len() > 0 {
        let front = ks.drop_last();
        lemma_at(g, eids, front, weights, ts);
        let before = salience::conflicts_at(g, eids, front, weights, ts);
        let all = salience::conflicts_at(g, eids, ks, weights, ts);
        let last = salience::conflict_among(
            g,
            eids.filter(salience::of_kind(g, ks.last())),
            weights,
            ts,
        );
        assert forall|i: int| 0 <= i < all.len() implies exists|k: u32|
            salience::conflict_among(
                g,
                #[trigger] eids.filter(salience::of_kind(g, k)),
                weights,
                ts,
            ) == Some(#[trigger] all[i]) by {
            if i < before.len() {
                assert(all[i] == before[i]);
                let k = choose|k: u32|
                    salience::conflict_among(
                        g,
                        #[trigger] eids.filter(salience::of_kind(g, k)),
                        weights,
                        ts,
                    ) == Some(before[i]);
                assert(salience::conflict_among(
                    g,
                    eids.filter(salience::of_kind(g, k)),
                    weights,
                    ts,
                ) == Some(all[i]));
            } else {
                assert(salience::conflict_among(
                    g,
                    eids.filter(salience::of_kind(g, ks.last())),
                    weights,
                    ts,
                ) == Some(all[i]));
            }
        }
        assert forall|k: u32, c: ConflictV|
            #![trigger ks.contains(k), all.contains(c)]
            ks.contains(k) && salience::conflict_among(
                g,
                eids.filter(salience::of_kind(g, k)),
                weights,
                ts,
            ) == Some(c) implies all.contains(c) by {
            if k == ks.last() {
                assert(all[all.len() - 1] == c);
            } else {
                assert(front[ks.index_of(k)] == k);
                assert(front.contains(k));
                assert(before.contains(c));
                let i = before.index_of(c);
                assert(all[i] == c);
            }
        }
    }
}

proof fn lemma_kinds_in(g: GraphV, eids: Seq<EdgeId>, i: int)
    requires
        0 <= i < eids.len(),
    ensures
        salience::kinds_in(g, eids).contains(g.edges[eids[i] as int].kind_id),
    decreases eids.len(),
{
    let k = g.edges[eids[i] as int].kind_id;
    let front = eids.drop_last();
    let before = salience::kinds_in(g, front);
    let all = salience::kinds_in(g, eids);
    if i < front.len() {
        lemma_kinds_in(g, front, i);
        assert(front[i] == eids[i]);
        assert(all[before.index_of(k)] == k);
    } else if !before.contains(k) {
        assert(all[all.len() - 1] == k);
    }
}

proof fn lemma_found(
    g: GraphV,
    kinds: Seq<Seq<char>>,
    weights: Seq<u32>,
    ts: Ts,
    n: int,
    u: NodeId,
    kind_id: u32,
)
    requires
        0 <= u < n <= g.nodes.len() <= u32::MAX,
        contradiction(g, kinds, u, kind_id, weights, ts) is Some,
    ensures
        salience::conflicts_of(g, kinds, weights, ts, n).contains(
            contradiction(g, kinds, u, kind_id, weights, ts)->0,
        ),
    decreases n,
{
    let c = contradiction(g, kinds, u, kind_id, weights, ts)->0;
    let before = salience::conflicts_of(g, kinds, weights, ts, n - 1);
    let eids = g.out_ids((n - 1) as u32).filter(salience::functional(g, kinds));
    let ks = salience::kinds_in(g, eids);
    let here = salience::conflicts_at(g, eids, ks, weights, ts);
    let all = salience::conflicts_of(g, kinds, weights, ts, n);
    if u == n - 1 {
        let group = eids.filter(salience::of_kind(g, kind_id));
        query::lemma_filter_members(eids, salience::of_kind(g, kind_id));
        assert(eids.contains(group[0]));
        lemma_kinds_in(g, eids, eids.index_of(group[0]));
        lemma_at(g, eids, ks, weights, ts);
        assert(ks.contains(kind_id));
        assert(here.contains(c));
        let i = here.index_of(c);
        assert(all[before.len() + i] == c);
    } else {
        lemma_found(g, kinds, weights, ts, n - 1, u, kind_id);
        assert(all[before.index_of(c)] == c);
    }
}

proof fn lemma_source(
    g: GraphV,
    kinds: Seq<Seq<char>>,
    weights: Seq<u32>,
    ts: Ts,
    n: int,
    i: int,
)
    requires
        n <= g.nodes.len() <= u32::MAX,
        0 <= i < salience::conflicts_of(g, kinds, weights, ts, n).len(),
    ensures
        exists|u: NodeId, k: u32|
            #[trigger] contradiction(g, kinds, u, k, weights, ts) == Some(
                salience::conflicts_of(g, kinds, weights, ts, n)[i],
            ),
    decreases n,
{
    let before = salience::conflicts_of(g, kinds, weights, ts, n - 1);
    let v = (n - 1) as u32;
    let eids = g.out_ids(v).filter(salience::functional(g, kinds));
    let ks = salience::kinds_in(g, eids);
    let here = salience::conflicts_at(g, eids, ks, weights, ts);
    let all = salience::conflicts_of(g, kinds, weights, ts, n);
    if i < before.len() {
        lemma_source(g, kinds, weights, ts, n - 1, i);
        assert(all[i] == before[i]);
    } else {
        lemma_at(g, eids, ks, weights, ts);
        let c = here[i - before.len()];
        assert(all[i] == c);
        let k = choose|k: u32|
            salience::conflict_among(
                g,
                #[trigger] eids.filter(salience::of_kind(g, k)),
                weights,
                ts,
            ) == Some(c);
        assert(contradiction(g, kinds, v, k, weights, ts) == Some(c));
    }
}

/// Consolidation reports the contradictions of functional kinds, all of them and
/// nothing else; where no kind is functional it reports none.
pub proof fn conflicts_are_the_contradictions(
    g: GraphV,
    kinds: Seq<Seq<char>>,
    weights: Seq<u32>,
    ts: Ts,
)
    requires
        g.wf(),
    ensures
        ({
            let found = salience::conflicts_of(g, kinds, weights, ts, g.nodes.len() as int);
            &&& forall|u: NodeId, k: u32|
                u < g.nodes.len() && (#[trigger] contradiction(
                    g,
                    kinds,
                    u,
                    k,
                    weights,
                    ts,
                )) is Some ==> found.contains(contradiction(g, kinds, u, k, weights, ts)->0)
            &&& forall|i: int|
                0 <= i < found.len() ==> is_contradiction(
                    g,
                    kinds,
                    weights,
                    ts,
                    #[trigger] found[i],
                ) && kinds.contains(found[i].kind)
        }),
{
    let n = g.nodes.len() as int;
    let found = salience::conflicts_of(g, kinds, weights, ts, n);
    assert forall|u: NodeId, k: u32|
        u < g.nodes.len() && (#[trigger] contradiction(
            g,
            kinds,
            u,
            k,
            weights,
            ts,
        )) is Some implies found.contains(contradiction(g, kinds, u, k, weights, ts)->0) by {
        lemma_found(g, kinds, weights, ts, n, u, k);
    }
    assert forall|i: int| 0 <= i < found.len() implies is_contradiction(
        g,
        kinds,
        weights,
        ts,
        #[trigger] found[i],
    ) && kinds.contains(found[i].kind) by {
        lemma_source(g, kinds, weights, ts, n, i);
        let (u, k) = choose|u: NodeId, k: u32| #[trigger]
            contradiction(g, kinds, u, k, weights, ts) == Some(found[i]);
        conflict_is_of_a_functional_kind(g, kinds, u, k, weights, ts);
    }
}

} // verus!
