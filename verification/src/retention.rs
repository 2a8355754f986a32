//! Laws of what learned weights decide, stated over edges, marks and weights:
//! which edges are looked at, which are masked, which facts contradict others.

use crate::model;
use crate::model::{EdgeId, GraphV, NodeId, OpV, Ts, T_MAX};
use crate::moments;
use crate::recording;
use crate::salience;
use crate::salience::ConflictV;
use crate::supersede;
use vstd::prelude::*;

verus! {

/// Edge `i` leaves node `u` while it holds at `t`.
pub open spec fn carries(g: GraphV, u: NodeId, t: Ts, i: int) -> bool {
    g.edges[i].src == u && g.edges[i].valid_from <= t && t < g.edges[i].valid_to
}

/// A filter of the records that leave a node lists those of which `p` holds.
proof fn lemma_out_filter(
    g: GraphV,
    u: NodeId,
    p: spec_fn(EdgeId) -> bool,
    chosen: spec_fn(int) -> bool,
) -> (at: Seq<int>)
    requires
        g.edges.len() <= u32::MAX,
        forall|i: int|
            0 <= i < g.edges.len() ==> #[trigger] chosen(i) == (g.edges[i].src == u && p(
                i as EdgeId,
            )),
    ensures
        moments::listed_at(
            at,
            g.out_ids(u).filter(p),
            g.edges.len(),
            chosen,
            |i: int| i as EdgeId,
        ),
{
    let ids = g.out_ids(u);
    let f = ids.filter(p);
    let inner = moments::lemma_filter_lists(ids, p);
    let picked = |k: int| p(ids[k]);
    model::lemma_edge_ids(g.edges, model::leaves(u));
    let at = Seq::new(inner.len(), |k: int| ids[inner[k]] as int);
    assert forall|k: int| 0 <= k < at.len() implies 0 <= (#[trigger] at[k]) < g.edges.len() && chosen(
        at[k],
    ) && f[k] == at[k] as EdgeId by {
        assert(picked(inner[k]));
        assert(f[k] == ids[inner[k]]);
        assert(model::leaves(u)(g.edges[ids[inner[k]] as int]));
    }
    assert forall|i: int, j: int| 0 <= i < j < at.len() implies #[trigger] at[i] < #[trigger] at[j] by {
        assert(inner[i] < inner[j]);
        assert(picked(inner[i]) && picked(inner[j]));
    }
    assert forall|i: int| 0 <= i < g.edges.len() && #[trigger] chosen(i) implies at.contains(i) by {
        assert(model::leaves(u)(g.edges[i]));
        let q = ids.index_of(i as u32);
        assert(picked(q));
        let k = inner.index_of(q);
        assert(at[k] == i);
    }
    at
}

/// The edges over which activation may leave a node are those that leave it and
/// hold at the time, all of them, in the order in which they were observed.
pub proof fn activation_leaves_over_every_edge_that_holds(g: GraphV, u: NodeId, t: Ts)
    requires
        g.edges.len() <= u32::MAX,
    ensures
        moments::lists(
            g.out_ids(u).filter(salience::holds(g, t)),
            g.edges.len(),
            |i: int| carries(g, u, t, i),
            |i: int| i as EdgeId,
        ),
{
    let at = lemma_out_filter(g, u, salience::holds(g, t), |i: int| carries(g, u, t, i));
}

/// Edge `i` leaves node `u`, has state and is not masked.
pub open spec fn is_live_edge(g: GraphV, u: NodeId, dead: Seq<bool>, i: int) -> bool {
    g.edges[i].src == u && i < dead.len() && !dead[i]
}

/// The live edges of a node are those that leave it and are not masked.
pub proof fn live_edges_are_those_not_masked(g: GraphV, u: NodeId, dead: Seq<bool>)
    requires
        g.edges.len() <= u32::MAX,
    ensures
        moments::lists(
            g.out_ids(u).filter(salience::is_live(dead)),
            g.edges.len(),
            |i: int| is_live_edge(g, u, dead, i),
            |i: int| i as EdgeId,
        ),
{
    let at = lemma_out_filter(g, u, salience::is_live(dead), |i: int| is_live_edge(g, u, dead, i));
}

/// Some live edge of the node has weight.
pub open spec fn shares(g: GraphV, dead: Seq<bool>, weights: Seq<u32>, u: int) -> bool {
    exists|i: int|
        0 <= i < g.edges.len() && (#[trigger] g.edges[i]).src == u && i < dead.len() && !dead[i]
            && weights[i] > 0
}

proof fn lemma_shares(g: GraphV, dead: Seq<bool>, weights: Seq<u32>, u: NodeId)
    requires
        g.edges.len() <= u32::MAX,
    ensures
        salience::has_budget(g, u, dead, weights) == shares(g, dead, weights, u as int),
{
    let ids = g.out_ids(u);
    model::lemma_edge_ids(g.edges, model::leaves(u));
    if salience::has_budget(g, u, dead, weights) {
        let k = choose|k: int|
            0 <= k < ids.len() && salience::is_live(dead)(#[trigger] ids[k])
                && weights[ids[k] as int] > 0;
        let i = ids[k] as int;
        assert(model::leaves(u)(g.edges[i]));
        assert(g.edges[i].src == u);
    }
    if shares(g, dead, weights, u as int) {
        let i = choose|i: int|
            0 <= i < g.edges.len() && (#[trigger] g.edges[i]).src == u && i < dead.len() && !dead[i]
                && weights[i] > 0;
        assert(model::leaves(u)(g.edges[i]));
        let k = ids.index_of(i as u32);
        assert(salience::is_live(dead)(ids[k]));
    }
}

/// The nodes that are scaled to a budget are those with a live edge that has
/// weight, all of them, in the order of their ids.
pub proof fn every_node_with_weight_is_scaled(g: GraphV, dead: Seq<bool>, weights: Seq<u32>)
    requires
        g.wf(),
    ensures
        moments::lists(
            salience::budgeted_of(g, dead, weights, g.nodes.len() as int),
            g.nodes.len(),
            |u: int| shares(g, dead, weights, u),
            |u: int| u as NodeId,
        ),
{
    let at = lemma_budgeted(g, dead, weights, g.nodes.len());
}

proof fn lemma_budgeted(g: GraphV, dead: Seq<bool>, weights: Seq<u32>, n: nat) -> (at: Seq<int>)
    requires
        g.wf(),
        n <= g.nodes.len(),
    ensures
        moments::listed_at(
            at,
            salience::budgeted_of(g, dead, weights, n as int),
            n,
            |u: int| shares(g, dead, weights, u),
            |u: int| u as NodeId,
        ),
    decreases n,
{
    let chosen = |u: int| shares(g, dead, weights, u);
    if n == 0 {
        Seq::empty()
    } else {
        let before = lemma_budgeted(g, dead, weights, (n - 1) as nat);
        lemma_shares(g, dead, weights, (n - 1) as u32);
        let at = if chosen(n - 1) {
            before.push(n - 1)
        } else {
            before
        };
        assert forall|i: int| 0 <= i < n && #[trigger] chosen(i) implies at.contains(i) by {
            if i < n - 1 {
                let j = before.index_of(i);
                assert(at[j] == i);
            } else {
                assert(at[at.len() - 1] == i);
            }
        }
        at
    }
}

/// How many edges are live: the number of those that are not masked.
pub proof fn live_edges_are_counted(dead: Seq<bool>)
    ensures
        moments::counts(
            salience::live_count(dead, dead.len() as int),
            dead.len(),
            |i: int| !dead[i],
        ),
{
    let at = lemma_live(dead, dead.len());
}

proof fn lemma_live(dead: Seq<bool>, n: nat) -> (at: Seq<int>)
    ensures
        at.len() == salience::live_count(dead, n as int),
        moments::counted_at(at, n, |i: int| !dead[i]),
    decreases n,
{
    let chosen = |i: int| !dead[i];
    if n == 0 {
        Seq::empty()
    } else {
        let before = lemma_live(dead, (n - 1) as nat);
        lemma_grow(before, n, chosen)
    }
}

/// One more position, which is chosen or not.
proof fn lemma_grow(before: Seq<int>, n: nat, chosen: spec_fn(int) -> bool) -> (at: Seq<int>)
    requires
        n > 0,
        moments::counted_at(before, (n - 1) as nat, chosen),
    ensures
        moments::counted_at(at, n, chosen),
        at.len() == before.len() + if chosen(n - 1) {
            1int
        } else {
            0
        },
{
    let at = if chosen(n - 1) {
        before.push(n - 1)
    } else {
        before
    };
    assert forall|i: int| 0 <= i < n && #[trigger] chosen(i) implies at.contains(i) by {
        if i < n - 1 {
            let j = before.index_of(i);
            assert(at[j] == i);
        } else {
            assert(at[at.len() - 1] == i);
        }
    }
    at
}

/// Pruning masks the edges whose weight is too small, and brings none back.
pub proof fn pruning_masks_what_is_too_light(dead: Seq<bool>, below: Seq<bool>, i: int)
    requires
        below.len() == dead.len(),
        0 <= i < dead.len(),
    ensures
        salience::pruned_marks(dead, below).len() == dead.len(),
        salience::pruned_marks(dead, below)[i] <==> dead[i] || below[i],
{
}

/// Sleep masks a live edge whose weight falls too low unless its weight lay above
/// the threshold, and brings none back. It reports how many edges were live, how
/// many of them it masked, and how many lay above the threshold.
pub proof fn sleep_masks_what_is_too_light_and_not_protected(
    dead: Seq<bool>,
    weights: Seq<u32>,
    below: Seq<bool>,
    thr: u32,
)
    requires
        weights.len() == dead.len(),
        below.len() == dead.len(),
    ensures
        ({
            let after = salience::slept_marks(dead, weights, below, thr);
            let (live, masked, spared) = salience::sleep_counts(
                dead,
                weights,
                below,
                thr,
                dead.len() as int,
            );
            &&& after.len() == dead.len()
            &&& forall|i: int|
                0 <= i < dead.len() ==> (#[trigger] after[i] <==> dead[i] || (below[i] && weights[i]
                    <= thr))
            &&& moments::counts(live, dead.len(), |i: int| !dead[i])
            &&& moments::counts(masked, dead.len(), |i: int| !dead[i] && after[i])
            &&& moments::counts(spared, dead.len(), |i: int| !dead[i] && weights[i] > thr)
        }),
{
    lemma_sleep(dead, weights, below, thr, dead.len());
    let after = salience::slept_marks(dead, weights, below, thr);
    let n = dead.len();
    let masked = salience::sleep_counts(dead, weights, below, thr, n as int).1;
    let a = |i: int| !dead[i] && below[i] && weights[i] <= thr;
    let b = |i: int| !dead[i] && after[i];
    let at = choose|at: Seq<int>| at.len() == masked && #[trigger] moments::counted_at(at, n, a);
    assert forall|i: int| 0 <= i < n && #[trigger] b(i) implies at.contains(i) by {
        assert(a(i));
    }
    assert(moments::counted_at(at, n, b));
}

proof fn lemma_sleep(
    dead: Seq<bool>,
    weights: Seq<u32>,
    below: Seq<bool>,
    thr: u32,
    n: nat,
)
    ensures
        ({
            let (live, masked, spared) = salience::sleep_counts(dead, weights, below, thr, n as int);
            &&& moments::counts(live, n, |i: int| !dead[i])
            &&& moments::counts(masked, n, |i: int| !dead[i] && below[i] && weights[i] <= thr)
            &&& moments::counts(spared, n, |i: int| !dead[i] && weights[i] > thr)
        }),
    decreases n,
{
    let a = |i: int| !dead[i];
    let b = |i: int| !dead[i] && below[i] && weights[i] <= thr;
    let c = |i: int| !dead[i] && weights[i] > thr;
    if n == 0 {
        let none = Seq::<int>::empty();
        assert(moments::counted_at(none, n, a));
        assert(moments::counted_at(none, n, b));
        assert(moments::counted_at(none, n, c));
    } else {
        let m = (n - 1) as nat;
        lemma_sleep(dead, weights, below, thr, m);
        let (live, masked, spared) = salience::sleep_counts(dead, weights, below, thr, m as int);
        let x = choose|at: Seq<int>| at.len() == live && #[trigger] moments::counted_at(at, m, a);
        let y = choose|at: Seq<int>| at.len() == masked && #[trigger] moments::counted_at(at, m, b);
        let z = choose|at: Seq<int>| at.len() == spared && #[trigger] moments::counted_at(at, m, c);
        let xx = lemma_grow(x, n, a);
        let yy = lemma_grow(y, n, b);
        let zz = lemma_grow(z, n, c);
    }
}

/// The weights among which the threshold of sleep is found are those of the live
/// edges, each once.
pub proof fn threshold_is_among_live_weights(dead: Seq<bool>, weights: Seq<u32>)
    requires
        weights.len() == dead.len(),
    ensures
        moments::lists(
            salience::live_weights(dead, weights, dead.len() as int),
            dead.len(),
            |i: int| !dead[i],
            |i: int| weights[i] as u64,
        ),
{
    let at = lemma_live_weights(dead, weights, dead.len());
}

proof fn lemma_live_weights(dead: Seq<bool>, weights: Seq<u32>, n: nat) -> (at: Seq<int>)
    ensures
        moments::listed_at(
            at,
            salience::live_weights(dead, weights, n as int),
            n,
            |i: int| !dead[i],
            |i: int| weights[i] as u64,
        ),
    decreases n,
{
    let chosen = |i: int| !dead[i];
    if n == 0 {
        Seq::empty()
    } else {
        let before = lemma_live_weights(dead, weights, (n - 1) as nat);
        let at = if chosen(n - 1) {
            before.push(n - 1)
        } else {
            before
        };
        assert forall|i: int| 0 <= i < n && #[trigger] chosen(i) implies at.contains(i) by {
            if i < n - 1 {
                let j = before.index_of(i);
                assert(at[j] == i);
            } else {
                assert(at[at.len() - 1] == i);
            }
        }
        at
    }
}

/// An edge given by names is the first open record that joins them; where none
/// does, there is none.
pub proof fn edge_by_name_is_the_open_record(
    g: GraphV,
    src: Seq<char>,
    dst: Seq<char>,
    kind: Seq<char>,
)
    requires
        g.wf(),
    ensures
        match salience::named_edge(g, src, dst, kind) {
            Some(e) => recording::joined(g, e as int, src, dst, kind) && forall|i: int|
                #[trigger] recording::joined(g, i, src, dst, kind) ==> e <= i,
            None => !recording::are_joined(g, src, dst, kind),
        },
{
    assert forall|i: int| #[trigger] recording::joined(g, i, src, dst, kind) implies g.id_of(src)
        == Some(g.edges[i].src) && g.id_of(dst) == Some(g.edges[i].dst) by {
        let e = g.edges[i];
        assert(g.ids[g.nodes[e.src as int].name] == e.src);
        assert(g.ids[g.nodes[e.dst as int].name] == e.dst);
    }
    if g.id_of(src) is Some && g.id_of(dst) is Some {
        let s = g.id_of(src)->0;
        let d = g.id_of(dst)->0;
        let p = salience::is_relation(g, d, kind);
        let chosen = |i: int| g.edges[i].src == s && p(i as EdgeId);
        let at = lemma_out_filter(g, s, p, chosen);
        let found = g.out_ids(s).filter(p);
        if found.len() > 0 {
            assert(chosen(at[0]));
            assert(found[0] == at[0] as EdgeId);
            assert forall|i: int| #[trigger]
                recording::joined(g, i, src, dst, kind) implies found[0] <= i by {
                assert(chosen(i));
                let k = at.index_of(i);
                if k > 0 {
                    assert(at[0] < at[k]);
                }
            }
        } else {
            assert forall|i: int| !recording::joined(g, i, src, dst, kind) by {
                if recording::joined(g, i, src, dst, kind) {
                    assert(chosen(i));
                    let k = at.index_of(i);
                    assert(false);
                }
            }
        }
    }
}

/// The state of an edge is the last that was stored under its stable key, and
/// there is none where nothing was.
pub proof fn state_is_the_last_under_its_key(keys: Seq<u64>, key: u64)
    ensures
        match salience::last_position(keys, key, keys.len() as int) {
            Some(p) => 0 <= p < keys.len() && keys[p] == key && forall|i: int|
                p < i < keys.len() ==> #[trigger] keys[i] != key,
            None => !keys.contains(key),
        },
{
    lemma_last_position(keys, key, keys.len());
}

proof fn lemma_last_position(keys: Seq<u64>, key: u64, n: nat)
    requires
        n <= keys.len(),
    ensures
        match salience::last_position(keys, key, n as int) {
            Some(p) => 0 <= p < n && keys[p] == key && forall|i: int|
                p < i < n ==> #[trigger] keys[i] != key,
            None => forall|i: int| 0 <= i < n ==> #[trigger] keys[i] != key,
        },
    decreases n,
{
    if n > 0 {
        lemma_last_position(keys, key, (n - 1) as nat);
    }
}

/// Stored state is loaded where its format is not newer than can be read and it
/// does not say that it belongs to another log.
pub proof fn state_is_loaded_where_it_belongs(
    version: u64,
    bound: Option<Seq<char>>,
    wal_id: Option<Seq<char>>,
)
    ensures
        salience::sidecar_refusal(version, bound, wal_id) is None <==> version <= 2 && (bound is None
            || wal_id is None || bound == wal_id),
{
}

// ---------------------------------------------------------------------------
// Contradictions
// ---------------------------------------------------------------------------

/// Record `i` is an open edge of node `u` of that kind, and the kind allows one.
pub open spec fn competes(
    g: GraphV,
    kinds: Seq<Seq<char>>,
    u: NodeId,
    kind_id: u32,
    i: int,
) -> bool {
    &&& g.edges[i].src == u
    &&& g.edges[i].kind_id == kind_id
    &&& g.edges[i].valid_to == T_MAX
    &&& kinds.contains(g.kinds[kind_id as int])
}

proof fn lemma_competes(g: GraphV, kinds: Seq<Seq<char>>, u: NodeId, kind_id: u32) -> (at: Seq<int>)
    requires
        g.wf(),
    ensures
        moments::listed_at(
            at,
            supersede::rivals(g, kinds, u, kind_id),
            g.edges.len(),
            |i: int| competes(g, kinds, u, kind_id, i),
            |i: int| i as EdgeId,
        ),
{
    let p = salience::functional(g, kinds);
    let q = salience::of_kind(g, kind_id);
    let first = g.out_ids(u).filter(p);
    let open = |i: int| g.edges[i].src == u && p(i as EdgeId);
    let outer = lemma_out_filter(g, u, p, open);
    let inner = moments::lemma_filter_lists(first, q);
    let picked = |k: int| q(first[k]);
    let chosen = |i: int| competes(g, kinds, u, kind_id, i);
    let r = supersede::rivals(g, kinds, u, kind_id);
    let at = Seq::new(inner.len(), |k: int| outer[inner[k]]);
    assert forall|k: int| 0 <= k < at.len() implies 0 <= (#[trigger] at[k]) < g.edges.len() && chosen(
        at[k],
    ) && r[k] == at[k] as EdgeId by {
        assert(picked(inner[k]));
        assert(r[k] == first[inner[k]]);
        assert(open(outer[inner[k]]));
        assert(first[inner[k]] == outer[inner[k]] as EdgeId);
    }
    assert forall|i: int, j: int| 0 <= i < j < at.len() implies #[trigger] at[i] < #[trigger] at[j] by {
        assert(inner[i] < inner[j]);
        assert(picked(inner[i]) && picked(inner[j]));
    }
    assert forall|i: int| 0 <= i < g.edges.len() && #[trigger] chosen(i) implies at.contains(i) by {
        assert(open(i));
        let m = outer.index_of(i);
        assert(first[m] == outer[m] as EdgeId);
        assert(picked(m));
        let k = inner.index_of(m);
        assert(at[k] == i);
    }
    at
}

/// What is reported of the open edges of one source and one kind: the end of the
/// one with the most weight, the first where several have it, and the retirement
/// of every other.
pub open spec fn settles(
    g: GraphV,
    kinds: Seq<Seq<char>>,
    u: NodeId,
    kind_id: u32,
    weights: Seq<u32>,
    ts: Ts,
    best: int,
    c: ConflictV,
) -> bool {
    &&& 0 <= best < g.edges.len()
    &&& competes(g, kinds, u, kind_id, best)
    &&& forall|i: int|
        0 <= i < g.edges.len() && #[trigger] competes(g, kinds, u, kind_id, i) ==> weights[i]
            <= weights[best] && (i < best ==> weights[i] < weights[best])
    &&& c.src == g.nodes[u as int].name
    &&& c.kind == g.kinds[kind_id as int]
    &&& c.winner_dst == g.nodes[g.edges[best].dst as int].name
    &&& moments::lists(
        c.superseded,
        g.edges.len(),
        yields(g, kinds, u, kind_id, best),
        retirement(g, u, kind_id, ts),
    )
}

/// The edge competes and is not the one that is kept.
pub open spec fn yields(
    g: GraphV,
    kinds: Seq<Seq<char>>,
    u: NodeId,
    kind_id: u32,
    best: int,
) -> spec_fn(int) -> bool {
    |i: int| competes(g, kinds, u, kind_id, i) && i != best
}

/// The retirement of an edge of that source and kind.
pub open spec fn retirement(g: GraphV, u: NodeId, kind_id: u32, ts: Ts) -> spec_fn(int) -> OpV {
    |i: int|
        OpV::RetireEdge {
            src: g.nodes[u as int].name,
            dst: g.nodes[g.edges[i].dst as int].name,
            kind: g.kinds[kind_id as int],
            ts,
        }
}

proof fn lemma_heaviest(weights: Seq<u32>, eids: Seq<EdgeId>) -> (b: int)
    requires
        eids.len() > 0,
    ensures
        0 <= b < eids.len(),
        salience::heaviest(weights, eids) == eids[b],
        forall|k: int|
            0 <= k < eids.len() ==> weights[(#[trigger] eids[k]) as int] <= weights[eids[b] as int],
        forall|k: int|
            0 <= k < b ==> weights[(#[trigger] eids[k]) as int] < weights[eids[b] as int],
    decreases eids.len(),
{
    if eids.len() == 1 {
        0
    } else {
        let front = eids.drop_last();
        let b = lemma_heaviest(weights, front);
        assert forall|k: int| 0 <= k < front.len() implies front[k] == #[trigger] eids[k] by {}
        if weights[eids.last() as int] > weights[front[b] as int] {
            eids.len() - 1
        } else {
            b
        }
    }
}

/// The contradiction of a source and a kind: there is one where two or more open
/// edges compete, and it settles them.
proof fn lemma_contradiction(
    g: GraphV,
    kinds: Seq<Seq<char>>,
    u: NodeId,
    kind_id: u32,
    weights: Seq<u32>,
    ts: Ts,
)
    requires
        g.wf(),
    ensures
        match supersede::contradiction(g, kinds, u, kind_id, weights, ts) {
            Some(c) => {
                &&& exists|best: int| #[trigger]
                    settles(g, kinds, u, kind_id, weights, ts, best, c)
                &&& two_compete(g, kinds, u, kind_id)
            },
            None => !two_compete(g, kinds, u, kind_id),
        },
{
    let group = supersede::rivals(g, kinds, u, kind_id);
    let at = lemma_competes(g, kinds, u, kind_id);
    let chosen = |i: int| competes(g, kinds, u, kind_id, i);
    assert(group.len() >= 2 <==> two_compete(g, kinds, u, kind_id)) by {
        if group.len() >= 2 {
            assert(at[0] < at[1]);
            assert(chosen(at[0]) && chosen(at[1]));
        }
        if two_compete(g, kinds, u, kind_id) {
            let (i, j) = choose|i: int, j: int|
                0 <= i < j < g.edges.len() && #[trigger] competes(g, kinds, u, kind_id, i)
                    && #[trigger] competes(g, kinds, u, kind_id, j);
            assert(chosen(i) && chosen(j));
            let a = at.index_of(i);
            let b = at.index_of(j);
            assert(a != b);
        }
    }
    if group.len() >= 2 {
        let c = supersede::contradiction(g, kinds, u, kind_id, weights, ts)->0;
        let b = lemma_heaviest(weights, group);
        let best = at[b];
        assert(chosen(best));
        assert(group[b] == best as EdgeId);
        let p = salience::other_record(group[b]);
        let others = group.filter(p);
        let inner = moments::lemma_filter_lists(group, p);
        let picked = |k: int| p(group[k]);
        let rest = yields(g, kinds, u, kind_id, best);
        let op = retirement(g, u, kind_id, ts);
        let all = Seq::new(inner.len(), |k: int| at[inner[k]]);
        assert forall|k: int| 0 <= k < all.len() implies 0 <= (#[trigger] all[k]) < g.edges.len()
            && rest(all[k]) && c.superseded[k] == op(all[k]) by {
            assert(picked(inner[k]));
            assert(chosen(at[inner[k]]));
            assert(group[inner[k]] == at[inner[k]] as EdgeId);
            assert(others[k] == group[inner[k]]);
            assert(c.superseded[k] == salience::retiring(g, ts)(others[k]));
        }
        assert forall|i: int, j: int| 0 <= i < j < all.len() implies #[trigger] all[i]
            < #[trigger] all[j] by {
            assert(inner[i] < inner[j]);
            assert(picked(inner[i]) && picked(inner[j]));
        }
        assert forall|i: int| 0 <= i < g.edges.len() && #[trigger] rest(i) implies all.contains(
            i,
        ) by {
            assert(chosen(i));
            let m = at.index_of(i);
            assert(group[m] == at[m] as EdgeId);
            assert(picked(m));
            let k = inner.index_of(m);
            assert(all[k] == i);
        }
        assert(moments::listed_at(all, c.superseded, g.edges.len(), rest, op));
        assert forall|i: int|
            0 <= i < g.edges.len() && #[trigger] competes(
                g,
                kinds,
                u,
                kind_id,
                i,
            ) implies weights[i] <= weights[best] && (i < best ==> weights[i] < weights[best]) by {
            assert(chosen(i));
            let m = at.index_of(i);
            assert(group[m] == at[m] as EdgeId);
            if i < best && m > b {
                assert(at[b] < at[m]);
            }
        }
        assert(settles(g, kinds, u, kind_id, weights, ts, best, c));
    }
}

/// Two or more open edges of the node are of that kind, which allows one.
pub open spec fn two_compete(g: GraphV, kinds: Seq<Seq<char>>, u: NodeId, kind_id: u32) -> bool {
    exists|i: int, j: int|
        0 <= i < j < g.edges.len() && #[trigger] competes(g, kinds, u, kind_id, i)
            && #[trigger] competes(g, kinds, u, kind_id, j)
}

/// The report settles the open edges of some source and kind.
pub open spec fn is_settlement(
    g: GraphV,
    kinds: Seq<Seq<char>>,
    weights: Seq<u32>,
    ts: Ts,
    c: ConflictV,
) -> bool {
    exists|u: NodeId, k: u32, best: int| #[trigger]
        settles(g, kinds, u, k, weights, ts, best, c) && two_compete(g, kinds, u, k)
}

/// Consolidation reports every contradiction and nothing else: wherever two open
/// edges of one source are of a kind that allows one, it names the end of the
/// heaviest and proposes to retire the others; and whatever it reports is that of
/// some such source and kind.
pub proof fn every_contradiction_is_reported(
    g: GraphV,
    kinds: Seq<Seq<char>>,
    weights: Seq<u32>,
    ts: Ts,
)
    requires
        g.wf(),
    ensures
        ({
            let found = salience::conflicts_of(g, kinds, weights, ts, g.nodes.len() as int);
            &&& forall|u: NodeId, k: u32|
                u < g.nodes.len() && #[trigger] two_compete(g, kinds, u, k) ==> exists|
                    c: ConflictV,
                    best: int,
                | #[trigger]
                    settles(g, kinds, u, k, weights, ts, best, c) && found.contains(c)
            &&& forall|n: int|
                0 <= n < found.len() ==> is_settlement(g, kinds, weights, ts, #[trigger] found[n])
        }),
{
    let found = salience::conflicts_of(g, kinds, weights, ts, g.nodes.len() as int);
    supersede::conflicts_are_the_contradictions(g, kinds, weights, ts);
    assert forall|u: NodeId, k: u32|
        u < g.nodes.len() && #[trigger] two_compete(g, kinds, u, k) implies exists|
        c: ConflictV,
        best: int,
    | #[trigger] settles(g, kinds, u, k, weights, ts, best, c) && found.contains(c) by {
        lemma_contradiction(g, kinds, u, k, weights, ts);
        let c = supersede::contradiction(g, kinds, u, k, weights, ts)->0;
        let best = choose|best: int| #[trigger] settles(g, kinds, u, k, weights, ts, best, c);
        assert(settles(g, kinds, u, k, weights, ts, best, c) && found.contains(c));
    }
    assert forall|n: int| 0 <= n < found.len() implies is_settlement(
        g,
        kinds,
        weights,
        ts,
        #[trigger] found[n],
    ) by {
        assert(supersede::is_contradiction(g, kinds, weights, ts, found[n]));
        let (u, k) = choose|u: NodeId, k: u32| #[trigger]
            supersede::contradiction(g, kinds, u, k, weights, ts) == Some(found[n]);
        lemma_contradiction(g, kinds, u, k, weights, ts);
        let best = choose|best: int| #[trigger]
            settles(g, kinds, u, k, weights, ts, best, found[n]);
        assert(settles(g, kinds, u, k, weights, ts, best, found[n]));
    }
}

} // verus!
