//! Laws of the temporal queries, stated over the intervals that the history
//! holds: what is alive at a moment, what a diff lists, what a snapshot ends.

use crate::model::{Edge, GraphV, NodeV, Ts};
use crate::model;
use crate::query;
use vstd::prelude::*;

verus! {

/// Some version of the node was observed at `t` or before and was not
/// retired yet.
pub open spec fn in_force(n: NodeV, t: Ts) -> bool {
    exists|k: int|
        0 <= k < n.versions.len() && (#[trigger] n.versions[k]).observed_at <= t && t
            < n.versions[k].retired_at
}

/// Version `k` is the latest one in force at `t`.
pub open spec fn latest(n: NodeV, t: Ts, k: int) -> bool {
    &&& 0 <= k < n.versions.len()
    &&& n.versions[k].observed_at <= t && t < n.versions[k].retired_at
    &&& forall|j: int|
        k < j < n.versions.len() ==> !((#[trigger] n.versions[j]).observed_at <= t && t
            < n.versions[j].retired_at)
}

/// The properties of the node at the two moments differ, by their hashes.
pub open spec fn other_props(n: NodeV, t1: Ts, t2: Ts) -> bool {
    exists|j: int, k: int| #[trigger]
        latest(n, t1, j) && #[trigger] latest(n, t2, k) && n.versions[j].props_hash
            != n.versions[k].props_hash
}

/// The list holds an item for each chosen position below `count`, in order,
/// and nothing else.
pub open spec fn lists<A>(
    list: Seq<A>,
    count: nat,
    chosen: spec_fn(int) -> bool,
    item: spec_fn(int) -> A,
) -> bool {
    exists|at: Seq<int>| #[trigger] listed_at(at, list, count, chosen, item)
}

/// `at` gives the position of each item of the list.
pub open spec fn listed_at<A>(
    at: Seq<int>,
    list: Seq<A>,
    count: nat,
    chosen: spec_fn(int) -> bool,
    item: spec_fn(int) -> A,
) -> bool {
    &&& at.len() == list.len()
    &&& forall|i: int, j: int| 0 <= i < j < at.len() ==> #[trigger] at[i] < #[trigger] at[j]
    &&& forall|k: int|
        0 <= k < at.len() ==> 0 <= (#[trigger] at[k]) < count && chosen(at[k]) && list[k] == item(
            at[k],
        )
    &&& forall|i: int| 0 <= i < count && #[trigger] chosen(i) ==> at.contains(i)
}

/// The list holds an item for each of the first chosen positions below `count`,
/// in order: all of them where there are no more than `most`, else `most`.
pub open spec fn lists_first<A>(
    list: Seq<A>,
    most: nat,
    count: nat,
    chosen: spec_fn(int) -> bool,
    item: spec_fn(int) -> A,
) -> bool {
    exists|at: Seq<int>| #[trigger] listed_first(at, list, most, count, chosen, item)
}

/// `at` gives the position of each item of a list that may be cut off.
pub open spec fn listed_first<A>(
    at: Seq<int>,
    list: Seq<A>,
    most: nat,
    count: nat,
    chosen: spec_fn(int) -> bool,
    item: spec_fn(int) -> A,
) -> bool {
    &&& at.len() == list.len()
    &&& list.len() <= most
    &&& forall|i: int, j: int| 0 <= i < j < at.len() ==> #[trigger] at[i] < #[trigger] at[j]
    &&& forall|k: int|
        0 <= k < at.len() ==> 0 <= (#[trigger] at[k]) < count && chosen(at[k]) && list[k] == item(
            at[k],
        )
    &&& forall|i: int|
        0 <= i < count && #[trigger] chosen(i) ==> at.contains(i) || (list.len() == most && forall|
            k: int,
        |
            0 <= k < at.len() ==> #[trigger] at[k] < i)
}

/// The first items of a list are those of its first positions.
pub proof fn lemma_lists_first<A>(
    at: Seq<int>,
    list: Seq<A>,
    most: nat,
    count: nat,
    chosen: spec_fn(int) -> bool,
    item: spec_fn(int) -> A,
)
    requires
        listed_at(at, list, count, chosen, item),
    ensures
        lists_first(
            if list.len() <= most {
                list
            } else {
                list.take(most as int)
            },
            most,
            count,
            chosen,
            item,
        ),
{
    if list.len() <= most {
        assert(listed_first(at, list, most, count, chosen, item));
    } else {
        let a = at.take(most as int);
        let l = list.take(most as int);
        assert forall|i: int| 0 <= i < count && #[trigger] chosen(i) implies a.contains(i) || (
        l.len() == most && forall|k: int| 0 <= k < a.len() ==> #[trigger] a[k] < i) by {
            let k = at.index_of(i);
            if k < most {
                assert(a[k] == i);
            } else {
                assert forall|j: int| 0 <= j < a.len() implies #[trigger] a[j] < i by {
                    assert(at[j] < at[k]);
                }
            }
        }
        assert(listed_first(a, l, most, count, chosen, item));
    }
}

/// `at` holds the chosen positions among the first `n`, in order.
pub open spec fn counted_at(at: Seq<int>, n: nat, chosen: spec_fn(int) -> bool) -> bool {
    &&& forall|i: int, j: int| 0 <= i < j < at.len() ==> #[trigger] at[i] < #[trigger] at[j]
    &&& forall|k: int| 0 <= k < at.len() ==> 0 <= (#[trigger] at[k]) < n && chosen(at[k])
    &&& forall|i: int| 0 <= i < n && #[trigger] chosen(i) ==> at.contains(i)
}

/// `total` of the first `n` positions are chosen.
pub open spec fn counts(total: nat, n: nat, chosen: spec_fn(int) -> bool) -> bool {
    exists|at: Seq<int>| at.len() == total && #[trigger] counted_at(at, n, chosen)
}

/// A filtered sequence lists the elements of which `p` holds.
pub proof fn lemma_filter_lists<A>(s: Seq<A>, p: spec_fn(A) -> bool) -> (at: Seq<int>)
    ensures
        listed_at(at, s.filter(p), s.len(), |i: int| p(s[i]), |i: int| s[i]),
    decreases s.len(),
{
    reveal(Seq::filter);
    if s.len() == 0 {
        Seq::empty()
    } else {
        let front = s.drop_last();
        let before = lemma_filter_lists(front, p);
        let chosen = |i: int| p(s[i]);
        let earlier = |i: int| p(front[i]);
        let at = if p(s.last()) {
            before.push(s.len() - 1)
        } else {
            before
        };
        assert forall|i: int| 0 <= i < s.len() && #[trigger] chosen(i) implies at.contains(i) by {
            if i < front.len() {
                assert(earlier(i));
                let k = before.index_of(i);
                assert(at[k] == i);
            } else {
                assert(at[at.len() - 1] == i);
            }
        }
        assert forall|k: int| 0 <= k < at.len() implies 0 <= (#[trigger] at[k]) < s.len() && chosen(
            at[k],
        ) && s.filter(p)[k] == s[at[k]] by {
            if k < before.len() {
                assert(at[k] == before[k]);
                assert(earlier(before[k]));
                assert(front[before[k]] == s[before[k]]);
            }
        }
        at
    }
}

/// The names of the nodes of which `p` holds, listed by id.
proof fn lemma_named(g: GraphV, p: spec_fn(NodeV) -> bool, chosen: spec_fn(int) -> bool)
    requires
        g.wf(),
        forall|i: int| 0 <= i < g.nodes.len() ==> #[trigger] chosen(i) == p(g.nodes[i]),
    ensures
        lists(query::named(g, p), g.nodes.len(), chosen, |i: int| g.nodes[i].name),
        query::named(g, p).no_duplicates(),
        forall|i: int|
            0 <= i < g.nodes.len() ==> (query::named(g, p).contains(
                (#[trigger] g.nodes[i]).name,
            ) <==> chosen(i)),
{
    let f = g.nodes.filter(p);
    let l = query::named(g, p);
    let at = lemma_filter_lists(g.nodes, p);
    let picked = |i: int| p(g.nodes[i]);
    assert forall|i: int| 0 <= i < g.nodes.len() && #[trigger] chosen(i) implies at.contains(i) by {
        assert(picked(i));
    }
    assert forall|k: int| 0 <= k < at.len() implies 0 <= (#[trigger] at[k]) < g.nodes.len()
        && chosen(at[k]) && l[k] == g.nodes[at[k]].name by {
        assert(picked(at[k]));
        assert(f[k] == g.nodes[at[k]]);
    }
    assert(listed_at(at, l, g.nodes.len(), chosen, |i: int| g.nodes[i].name));
    assert forall|i: int| 0 <= i < g.nodes.len() implies (l.contains(
        (#[trigger] g.nodes[i]).name,
    ) <==> chosen(i)) by {
        if chosen(i) {
            let k = at.index_of(i);
            assert(l[k] == g.nodes[i].name);
        }
        if l.contains(g.nodes[i].name) {
            let k = l.index_of(g.nodes[i].name);
            assert(chosen(at[k]));
            assert(g.ids[g.nodes[at[k]].name] == at[k]);
            assert(g.ids[g.nodes[i].name] == i);
        }
    }
    assert forall|a: int, b: int| 0 <= a < l.len() && 0 <= b < l.len() && a != b implies l[a]
        != l[b] by {
        assert(g.ids[g.nodes[at[a]].name] == at[a]);
        assert(g.ids[g.nodes[at[b]].name] == at[b]);
        if a < b {
            assert(at[a] < at[b]);
        } else {
            assert(at[b] < at[a]);
        }
    }
}

/// The texts of the edge records of which `p` holds, listed by record.
proof fn lemma_edges_text(g: GraphV, p: spec_fn(Edge) -> bool, chosen: spec_fn(int) -> bool)
    requires
        forall|i: int| 0 <= i < g.edges.len() ==> #[trigger] chosen(i) == p(g.edges[i]),
    ensures
        lists(query::edges_text(g, p), g.edges.len(), chosen, |i: int| relation_text(g, i)),
{
    let f = g.edges.filter(p);
    let l = query::edges_text(g, p);
    let at = lemma_filter_lists(g.edges, p);
    let picked = |i: int| p(g.edges[i]);
    assert forall|i: int| 0 <= i < g.edges.len() && #[trigger] chosen(i) implies at.contains(i) by {
        assert(picked(i));
    }
    assert forall|k: int| 0 <= k < at.len() implies 0 <= (#[trigger] at[k]) < g.edges.len()
        && chosen(at[k]) && l[k] == relation_text(g, at[k]) by {
        assert(picked(at[k]));
        assert(f[k] == g.edges[at[k]]);
        assert(l[k] =~= relation_text(g, at[k]));
    }
    assert(listed_at(at, l, g.edges.len(), chosen, |i: int| relation_text(g, i)));
}

/// The node where record `i` begins, its kind and the node where it ends.
pub open spec fn relation_text(g: GraphV, i: int) -> Seq<char> {
    let e = g.edges[i];
    g.nodes[e.src as int].name + (" -["@ + (g.kinds[e.kind_id as int] + ("]-> "@
        + g.nodes[e.dst as int].name)))
}

/// A node is alive at the moments that lie in the interval of one of its
/// versions, and the version that counts then is the latest of those.
pub proof fn alive_is_within_an_interval(n: NodeV, t: Ts)
    ensures
        n.alive_at(t) == in_force(n, t),
        model::version_at(n.versions, t) is Some <==> in_force(n, t),
        forall|k: int| #[trigger]
            latest(n, t, k) ==> model::version_at(n.versions, t) == Some(n.versions[k]),
        in_force(n, t) ==> exists|k: int| #[trigger]
            latest(n, t, k) && model::version_at(n.versions, t) == Some(n.versions[k]),
    decreases n.versions.len(),
{
    if n.versions.len() > 0 {
        let last = n.versions.len() - 1;
        let before = NodeV { versions: n.versions.drop_last(), ..n };
        alive_is_within_an_interval(before, t);
        if n.versions.last().holds_at(t) {
            assert(n.versions[last].observed_at <= t);
            assert(latest(n, t, last));
        } else {
            if in_force(before, t) {
                let k = choose|k: int| #[trigger] latest(before, t, k);
                assert(before.versions[k] == n.versions[k]);
                assert(latest(n, t, k)) by {
                    assert forall|j: int| k < j < n.versions.len() implies !((
                    #[trigger] n.versions[j]).observed_at <= t && t < n.versions[j].retired_at) by {
                        if j < last {
                            assert(before.versions[j] == n.versions[j]);
                        }
                    }
                }
            } else {
                assert forall|j: int| 0 <= j < n.versions.len() implies !((
                #[trigger] n.versions[j]).observed_at <= t && t < n.versions[j].retired_at) by {
                    if j < last {
                        assert(before.versions[j] == n.versions[j]);
                    }
                }
            }
            assert forall|k: int| #[trigger] latest(n, t, k) implies model::version_at(
                n.versions,
                t,
            ) == Some(n.versions[k]) by {
                assert(k < last);
                assert(before.versions[k] == n.versions[k]);
                assert forall|j: int| k < j < before.versions.len() implies !((
                #[trigger] before.versions[j]).observed_at <= t && t
                    < before.versions[j].retired_at) by {
                    assert(before.versions[j] == n.versions[j]);
                }
                assert(latest(before, t, k));
            }
        }
    }
}

/// The nodes listed as alive at `t` are those with a version in force then,
/// placeholders among them, each once and in the order of their ids.
pub proof fn alive_lists_what_is_in_force(g: GraphV, t: Ts)
    requires
        g.wf(),
    ensures
        ({
            let l = query::named(g, query::alive(t));
            &&& lists(
                l,
                g.nodes.len(),
                |i: int| in_force(g.nodes[i], t),
                |i: int| g.nodes[i].name,
            )
            &&& l.no_duplicates()
            &&& forall|i: int|
                0 <= i < g.nodes.len() ==> (l.contains((#[trigger] g.nodes[i]).name) <==> in_force(
                    g.nodes[i],
                    t,
                ))
        }),
{
    let chosen = |i: int| in_force(g.nodes[i], t);
    assert forall|i: int| 0 <= i < g.nodes.len() implies #[trigger] chosen(i) == query::alive(t)(
        g.nodes[i],
    ) by {
        alive_is_within_an_interval(g.nodes[i], t);
    }
    lemma_named(g, query::alive(t), chosen);
}

/// A diff lists as added the observed nodes with no version in force at `t1`
/// and one at `t2`, however many versions they have, and as removed those the
/// other way round, each once and in the order of their ids.
pub proof fn diff_lists_what_came_and_went(g: GraphV, t1: Ts, t2: Ts)
    requires
        g.wf(),
    ensures
        ({
            let d = query::diff_of(g, t1, t2);
            &&& lists(
                d.nodes_added,
                g.nodes.len(),
                |i: int|
                    !g.nodes[i].placeholder && !in_force(g.nodes[i], t1) && in_force(
                        g.nodes[i],
                        t2,
                    ),
                |i: int| g.nodes[i].name,
            )
            &&& lists(
                d.nodes_removed,
                g.nodes.len(),
                |i: int|
                    !g.nodes[i].placeholder && in_force(g.nodes[i], t1) && !in_force(
                        g.nodes[i],
                        t2,
                    ),
                |i: int| g.nodes[i].name,
            )
            &&& d.nodes_added.no_duplicates()
            &&& d.nodes_removed.no_duplicates()
            &&& forall|i: int|
                0 <= i < g.nodes.len() ==> (d.nodes_added.contains((#[trigger] g.nodes[i]).name)
                    <==> !g.nodes[i].placeholder && !in_force(g.nodes[i], t1) && in_force(
                    g.nodes[i],
                    t2,
                ))
            &&& forall|i: int|
                0 <= i < g.nodes.len() ==> (d.nodes_removed.contains((#[trigger] g.nodes[i]).name)
                    <==> !g.nodes[i].placeholder && in_force(g.nodes[i], t1) && !in_force(
                    g.nodes[i],
                    t2,
                ))
        }),
{
    let came = |i: int|
        !g.nodes[i].placeholder && !in_force(g.nodes[i], t1) && in_force(g.nodes[i], t2);
    let went = |i: int|
        !g.nodes[i].placeholder && in_force(g.nodes[i], t1) && !in_force(g.nodes[i], t2);
    assert forall|i: int| 0 <= i < g.nodes.len() implies #[trigger] came(i) == query::appeared(
        t1,
        t2,
    )(g.nodes[i]) by {
        alive_is_within_an_interval(g.nodes[i], t1);
        alive_is_within_an_interval(g.nodes[i], t2);
    }
    assert forall|i: int| 0 <= i < g.nodes.len() implies #[trigger] went(i) == query::appeared(
        t2,
        t1,
    )(g.nodes[i]) by {
        alive_is_within_an_interval(g.nodes[i], t1);
        alive_is_within_an_interval(g.nodes[i], t2);
    }
    lemma_named(g, query::appeared(t1, t2), came);
    lemma_named(g, query::appeared(t2, t1), went);
}

/// A diff lists as changed the observed nodes in force at both moments whose
/// properties differ, each once and in the order of their ids.
pub proof fn diff_lists_what_changed(g: GraphV, t1: Ts, t2: Ts)
    requires
        g.wf(),
    ensures
        ({
            let d = query::diff_of(g, t1, t2);
            &&& lists(
                d.nodes_changed,
                g.nodes.len(),
                |i: int| !g.nodes[i].placeholder && other_props(g.nodes[i], t1, t2),
                |i: int| g.nodes[i].name,
            )
            &&& d.nodes_changed.no_duplicates()
            &&& forall|i: int|
                0 <= i < g.nodes.len() ==> (d.nodes_changed.contains((#[trigger] g.nodes[i]).name)
                    <==> !g.nodes[i].placeholder && other_props(g.nodes[i], t1, t2))
        }),
{
    let chosen = |i: int| !g.nodes[i].placeholder && other_props(g.nodes[i], t1, t2);
    assert forall|i: int| 0 <= i < g.nodes.len() implies #[trigger] chosen(i) == query::changed(
        t1,
        t2,
    )(g.nodes[i]) by {
        let n = g.nodes[i];
        alive_is_within_an_interval(n, t1);
        alive_is_within_an_interval(n, t2);
        if in_force(n, t1) && in_force(n, t2) {
            let j = choose|j: int| #[trigger] latest(n, t1, j);
            let k = choose|k: int| #[trigger] latest(n, t2, k);
            assert(latest(n, t1, j) && latest(n, t2, k));
        }
    }
    lemma_named(g, query::changed(t1, t2), chosen);
}

/// A diff lists as added the edge records whose interval holds `t2` and not
/// `t1`, and as removed those whose interval holds `t1` and not `t2`, in the
/// order in which they were observed.
pub proof fn diff_lists_the_edges_that_came_and_went(g: GraphV, t1: Ts, t2: Ts)
    ensures
        ({
            let d = query::diff_of(g, t1, t2);
            &&& lists(
                d.edges_added,
                g.edges.len(),
                |i: int|
                    !(g.edges[i].valid_from <= t1 && t1 < g.edges[i].valid_to)
                        && g.edges[i].valid_from <= t2 && t2 < g.edges[i].valid_to,
                |i: int| relation_text(g, i),
            )
            &&& lists(
                d.edges_removed,
                g.edges.len(),
                |i: int|
                    g.edges[i].valid_from <= t1 && t1 < g.edges[i].valid_to && !(
                    g.edges[i].valid_from <= t2 && t2 < g.edges[i].valid_to),
                |i: int| relation_text(g, i),
            )
        }),
{
    let came = |i: int|
        !(g.edges[i].valid_from <= t1 && t1 < g.edges[i].valid_to) && g.edges[i].valid_from <= t2
            && t2 < g.edges[i].valid_to;
    let went = |i: int|
        g.edges[i].valid_from <= t1 && t1 < g.edges[i].valid_to && !(g.edges[i].valid_from <= t2
            && t2 < g.edges[i].valid_to);
    lemma_edges_text(g, query::began(t1, t2), came);
    lemma_edges_text(g, query::began(t2, t1), went);
}

/// An observed node is alive at `t2` where it was alive at `t1` and is not
/// listed as removed, or is listed as added.
pub proof fn diff_accounts_for_what_is_alive(g: GraphV, t1: Ts, t2: Ts, i: int)
    requires
        g.wf(),
        0 <= i < g.nodes.len(),
        !g.nodes[i].placeholder,
    ensures
        ({
            let name = g.nodes[i].name;
            let d = query::diff_of(g, t1, t2);
            query::named(g, query::alive(t2)).contains(name) <==> (query::named(
                g,
                query::alive(t1),
            ).contains(name) && !d.nodes_removed.contains(name)) || d.nodes_added.contains(name)
        }),
{
    alive_lists_what_is_in_force(g, t1);
    alive_lists_what_is_in_force(g, t2);
    diff_lists_what_came_and_went(g, t1, t2);
}

/// What a snapshot taken at `ts` does not confirm: the observed nodes in force
/// then whose names it does not hold, each once and in the order of their ids.
pub proof fn stale_lists_what_was_not_seen(g: GraphV, seen: Set<Seq<char>>, ts: Ts)
    requires
        g.wf(),
    ensures
        ({
            let l = query::named(g, query::stale(seen, ts));
            &&& lists(
                l,
                g.nodes.len(),
                |i: int|
                    !g.nodes[i].placeholder && in_force(g.nodes[i], ts) && !seen.contains(
                        g.nodes[i].name,
                    ),
                |i: int| g.nodes[i].name,
            )
            &&& l.no_duplicates()
            &&& forall|i: int|
                0 <= i < g.nodes.len() ==> (l.contains((#[trigger] g.nodes[i]).name)
                    <==> !g.nodes[i].placeholder && in_force(g.nodes[i], ts) && !seen.contains(
                    g.nodes[i].name,
                ))
        }),
{
    let chosen = |i: int|
        !g.nodes[i].placeholder && in_force(g.nodes[i], ts) && !seen.contains(g.nodes[i].name);
    assert forall|i: int| 0 <= i < g.nodes.len() implies #[trigger] chosen(i) == query::stale(
        seen,
        ts,
    )(g.nodes[i]) by {
        alive_is_within_an_interval(g.nodes[i], ts);
    }
    lemma_named(g, query::stale(seen, ts), chosen);
}

/// The label of a node at a moment is that of the latest version in force then,
/// and there is none where none is.
pub proof fn label_is_that_of_the_latest_version(g: GraphV, id: u32, t: Ts)
    requires
        g.wf(),
        id < g.nodes.len(),
    ensures
        forall|k: int| #[trigger]
            latest(g.nodes[id as int], t, k) ==> g.node_origin_at(id, t)
                == g.origins[g.nodes[id as int].versions[k].origin_id as int],
        !in_force(g.nodes[id as int], t) ==> g.node_origin_at(id, t).len() == 0,
{
    let n = g.nodes[id as int];
    alive_is_within_an_interval(n, t);
    assert forall|k: int| #[trigger] latest(n, t, k) implies g.node_origin_at(id, t)
        == g.origins[n.versions[k].origin_id as int] by {
        assert(g.nodes[id as int].versions[k].origin_id < g.origins.len());
    }
}

} // verus!
