//! Temporal queries: what is alive, what changed, what is reachable.

use crate::graph::TemporalGraph;
use crate::model::{Edge, EdgeId, GraphV, NodeId, NodeV, Ts, T_MAX};
use crate::names;
use crate::text;
use vstd::hash_set::StringHashSet;
use vstd::prelude::*;

verus! {

/// The prefix up to `i` gains its next element under a filter, or not.
pub proof fn lemma_filter_step<A>(s: Seq<A>, i: int, p: spec_fn(A) -> bool)
    requires
        0 <= i < s.len(),
    ensures
        s.take(i + 1).filter(p) == (if p(s[i]) {
            s.take(i).filter(p).push(s[i])
        } else {
            s.take(i).filter(p)
        }),
{
    reveal(Seq::filter);
    assert(s.take(i + 1).drop_last() =~= s.take(i));
}

/// A filter keeps exactly the elements of which `p` holds.
pub proof fn lemma_filter_members<A>(s: Seq<A>, p: spec_fn(A) -> bool)
    ensures
        forall|k: int|
            0 <= k < s.filter(p).len() ==> s.contains(#[trigger] s.filter(p)[k]) && p(
                s.filter(p)[k],
            ),
        forall|x: A| #[trigger] s.contains(x) && p(x) ==> s.filter(p).contains(x),
    decreases s.len(),
{
    reveal(Seq::filter);
    if s.len() > 0 {
        let front = s.drop_last();
        lemma_filter_members(front, p);
        let f = s.filter(p);
        let ff = front.filter(p);
        assert forall|k: int| 0 <= k < f.len() implies s.contains(#[trigger] f[k]) && p(f[k]) by {
            if k < ff.len() {
                assert(f[k] == ff[k]);
                let m = front.index_of(ff[k]);
                assert(s[m] == ff[k]);
            } else {
                assert(s[s.len() - 1] == f[k]);
            }
        }
        assert forall|x: A| #[trigger] s.contains(x) && p(x) implies f.contains(x) by {
            let m = s.index_of(x);
            if m < front.len() {
                assert(front[m] == x);
                assert(front.contains(x));
                let k = ff.index_of(x);
                assert(f[k] == x);
            } else {
                assert(f[f.len() - 1] == x);
            }
        }
    }
}

pub open spec fn name_of() -> spec_fn(NodeV) -> Seq<char> {
    |n: NodeV| n.name
}

/// The names of the nodes of which `p` holds, in the order of their ids.
pub open spec fn named(g: GraphV, p: spec_fn(NodeV) -> bool) -> Seq<Seq<char>> {
    g.nodes.filter(p).map_values(name_of())
}

pub open spec fn stale(seen: Set<Seq<char>>, ts: Ts) -> spec_fn(NodeV) -> bool {
    |n: NodeV| !n.placeholder && n.alive_at(ts) && !seen.contains(n.name)
}

pub open spec fn alive(t: Ts) -> spec_fn(NodeV) -> bool {
    |n: NodeV| n.alive_at(t)
}

pub open spec fn appeared(t1: Ts, t2: Ts) -> spec_fn(NodeV) -> bool {
    |n: NodeV| !n.placeholder && !n.alive_at(t1) && n.alive_at(t2)
}

pub open spec fn changed(t1: Ts, t2: Ts) -> spec_fn(NodeV) -> bool {
    |n: NodeV|
        !n.placeholder && match (
            crate::model::version_at(n.versions, t1),
            crate::model::version_at(n.versions, t2),
        ) {
            (Some(a), Some(b)) => a.props_hash != b.props_hash,
            _ => false,
        }
}

pub open spec fn began(t1: Ts, t2: Ts) -> spec_fn(Edge) -> bool {
    |e: Edge| !e.holds_at(t1) && e.holds_at(t2)
}

/// An edge as text: "src -[kind]-> dst".
pub open spec fn edge_text(g: GraphV, e: Edge) -> Seq<char> {
    g.nodes[e.src as int].name + " -["@ + g.kinds[e.kind_id as int] + "]-> "@
        + g.nodes[e.dst as int].name
}

pub open spec fn text_in(g: GraphV) -> spec_fn(Edge) -> Seq<char> {
    |e: Edge| edge_text(g, e)
}

/// The edges of which `p` holds, as text, in the order of observation.
pub open spec fn edges_text(g: GraphV, p: spec_fn(Edge) -> bool) -> Seq<Seq<char>> {
    g.edges.filter(p).map_values(text_in(g))
}

/// What changed between two points in time.
#[derive(Debug)]
pub struct GraphDiff {
    pub nodes_added: Vec<String>,
    pub nodes_removed: Vec<String>,
    pub nodes_changed: Vec<String>,
    pub edges_added: Vec<String>,
    pub edges_removed: Vec<String>,
}

/// The mathematical form of a [`GraphDiff`].
pub struct DiffV {
    pub nodes_added: Seq<Seq<char>>,
    pub nodes_removed: Seq<Seq<char>>,
    pub nodes_changed: Seq<Seq<char>>,
    pub edges_added: Seq<Seq<char>>,
    pub edges_removed: Seq<Seq<char>>,
}

impl View for GraphDiff {
    type V = DiffV;

    open spec fn view(&self) -> DiffV {
        DiffV {
            nodes_added: text::views(self.nodes_added@),
            nodes_removed: text::views(self.nodes_removed@),
            nodes_changed: text::views(self.nodes_changed@),
            edges_added: text::views(self.edges_added@),
            edges_removed: text::views(self.edges_removed@),
        }
    }
}

impl DiffV {
    pub open spec fn is_empty(self) -> bool {
        &&& self.nodes_added.len() == 0
        &&& self.nodes_removed.len() == 0
        &&& self.nodes_changed.len() == 0
        &&& self.edges_added.len() == 0
        &&& self.edges_removed.len() == 0
    }
}

impl GraphDiff {
    pub fn is_empty(&self) -> (res: bool)
        ensures
            res == self@.is_empty(),
    {
        self.nodes_added.len() == 0 && self.nodes_removed.len() == 0 && self.nodes_changed.len()
            == 0 && self.edges_added.len() == 0 && self.edges_removed.len() == 0
    }
}

/// What changed from `t1` to `t2`: nodes that came, went or got other
/// properties (placeholders left out), edges that came or went.
pub open spec fn diff_of(g: GraphV, t1: Ts, t2: Ts) -> DiffV {
    DiffV {
        nodes_added: named(g, appeared(t1, t2)),
        nodes_removed: named(g, appeared(t2, t1)),
        nodes_changed: named(g, changed(t1, t2)),
        edges_added: edges_text(g, began(t1, t2)),
        edges_removed: edges_text(g, began(t2, t1)),
    }
}

/// The set of the strings of a list.
pub open spec fn string_set(v: Seq<String>) -> Set<Seq<char>> {
    text::views(v).to_set()
}

fn set_of(v: &Vec<String>) -> (res: StringHashSet)
    ensures
        res@ == string_set(v@),
{
    let mut s = StringHashSet::new();
    let mut i: usize = 0;
    let ghost all = text::views(v@);
    assert(all.take(0).to_set() =~= Set::empty());
    while i < v.len()
        invariant
            i <= v@.len(),
            all == text::views(v@),
            s@ == all.take(i as int).to_set(),
        decreases v@.len() - i,
    {
        s.insert(v[i].clone());
        proof {
            let a = all.take(i as int);
            let b = all.take(i + 1);
            assert(b =~= a.push(all[i as int]));
            assert(b.to_set() =~= a.to_set().insert(all[i as int])) by {
                assert forall|x: Seq<char>| b.contains(x) == (a.contains(x) || x == all[i as int]) by {
                    if a.contains(x) {
                        let k = a.index_of(x);
                        assert(b[k] == x);
                    }
                    assert(b[i as int] == all[i as int]);
                }
            }
        }
        i += 1;
    }
    assert(all.take(all.len() as int) =~= all);
    s
}

impl TemporalGraph {
    /// Live nodes, placeholders left out, whose names are not in `seen`.
    pub fn stale_nodes(&self, seen: &Vec<String>, ts: Ts) -> (res: Vec<String>)
        ensures
            text::views(res@) == named(self@, stale(string_set(seen@), ts)),
    {
        let set = set_of(seen);
        let ghost p = stale(string_set(seen@), ts);
        let ghost nodes = self@.nodes;
        let mut out: Vec<String> = Vec::new();
        let mut i: usize = 0;
        let n: usize = self.node_count();
        proof {
            reveal(Seq::filter);
            assert(text::views(out@) =~= nodes.take(0).filter(p).map_values(name_of()));
        }
        while i < n
            invariant
                i <= n,
                n == nodes.len(),
                nodes == self@.nodes,
                set@ == string_set(seen@),
                p == stale(string_set(seen@), ts),
                text::views(out@) == nodes.take(i as int).filter(p).map_values(name_of()),
            decreases n - i,
        {
            let x = self.node_at(i);
            proof {
                lemma_filter_step(nodes, i as int, p);
            }
            if !x.placeholder && x.alive_at(ts) && !set.contains(x.name.as_str()) {
                let ghost o = out@;
                out.push(x.name.clone());
                assert(text::views(out@) =~= text::views(o).push(x.name@));
                assert(nodes.take(i + 1).filter(p).map_values(name_of()) =~= nodes.take(
                    i as int,
                ).filter(p).map_values(name_of()).push(x.name@));
            }
            i += 1;
        }
        assert(nodes.take(nodes.len() as int) =~= nodes);
        out
    }
}

/// The graph with the nodes called `names` retired at `ts`, one after another.
pub open spec fn retire_all(g: GraphV, names: Seq<Seq<char>>, ts: Ts) -> GraphV
    decreases names.len(),
{
    if names.len() == 0 {
        g
    } else {
        retire_all(g, names.drop_last(), ts).retire_node(names.last(), ts)
    }
}

pub open spec fn is_open(g: GraphV) -> spec_fn(EdgeId) -> bool {
    |e: EdgeId| g.edges[e as int].valid_to == T_MAX
}

pub open spec fn target(g: GraphV) -> spec_fn(EdgeId) -> (Seq<char>, Seq<char>) {
    |e: EdgeId|
        (
            g.nodes[g.edges[e as int].dst as int].name,
            g.kinds[g.edges[e as int].kind_id as int],
        )
}

/// Where the open edges of the node called `src` lead: target and kind of
/// each, in the order of observation.
pub open spec fn open_targets(g: GraphV, src: Seq<char>) -> Seq<(Seq<char>, Seq<char>)> {
    match g.id_of(src) {
        Some(id) => g.out_ids(id).filter(is_open(g)).map_values(target(g)),
        None => Seq::empty(),
    }
}

pub open spec fn pair_views(v: Seq<(String, String)>) -> Seq<(Seq<char>, Seq<char>)> {
    v.map_values(|p: (String, String)| (p.0@, p.1@))
}

pub open spec fn str_views(v: Seq<&str>) -> Seq<Seq<char>> {
    v.map_values(|s: &str| s@)
}

impl TemporalGraph {
    /// Retires every live node, placeholders left out, whose name is not in
    /// `seen`: after a complete snapshot taken at `ts` this ends what was
    /// deleted without notice.
    pub fn reconcile(&mut self, seen: &Vec<String>, ts: Ts) -> (res: Vec<String>)
        requires
            old(self).wf(),
        ensures
            final(self).wf(),
            text::views(res@) == named(old(self)@, stale(string_set(seen@), ts)),
            final(self)@ == retire_all(old(self)@, text::views(res@), ts),
    {
        let stale_names = self.stale_nodes(seen, ts);
        let ghost all = text::views(stale_names@);
        let ghost start = self@;
        let mut i: usize = 0;
        assert(all.take(0) =~= Seq::empty());
        while i < stale_names.len()
            invariant
                i <= stale_names@.len(),
                all == text::views(stale_names@),
                self.wf(),
                self@ == retire_all(start, all.take(i as int), ts),
            decreases stale_names@.len() - i,
        {
            proof {
                assert(all.take(i + 1).drop_last() =~= all.take(i as int));
                assert(all.take(i + 1).last() == stale_names@[i as int]@);
            }
            self.retire_node(stale_names[i].as_str(), ts);
            i += 1;
        }
        assert(all.take(all.len() as int) =~= all);
        stale_names
    }

    /// Open edges that leave the node called `src`, as (target, kind).
    pub fn open_out_edges_named(&self, src: &str) -> (res: Vec<(String, String)>)
        requires
            self.wf(),
        ensures
            pair_views(res@) == open_targets(self@, src@),
    {
        let mut out: Vec<(String, String)> = Vec::new();
        let ghost g = self@;
        if let Some(id) = self.id_of(src) {
            proof {
                self.lemma_wf();
                crate::model::lemma_edge_ids(g.edges, crate::model::leaves(id));
                reveal(Seq::filter);
            }
            let eids = self.out_edge_ids(id);
            let ghost ids = g.out_ids(id);
            let ghost p = is_open(g);
            let mut i: usize = 0;
            assert(pair_views(out@) =~= ids.take(0).filter(p).map_values(target(g)));
            while i < eids.len()
                invariant
                    i <= eids@.len(),
                    eids@ == ids,
                    ids == g.out_ids(id),
                    g == self@,
                    g.wf(),
                    p == is_open(g),
                    forall|k: int| 0 <= k < ids.len() ==> (#[trigger] ids[k]) < g.edges.len(),
                    pair_views(out@) == ids.take(i as int).filter(p).map_values(target(g)),
                decreases eids@.len() - i,
            {
                let eid: EdgeId = eids[i];
                assert(ids[i as int] < g.edges.len());
                let e = *self.edge(eid);
                assert(e.dst < g.nodes.len() && e.kind_id < g.kinds.len());
                proof {
                    lemma_filter_step(ids, i as int, p);
                }
                if e.valid_to == T_MAX {
                    let ghost o = out@;
                    let d = self.node_name(e.dst).to_owned();
                    let k = self.kind_str(e.kind_id).to_owned();
                    out.push((d, k));
                    assert(pair_views(out@) =~= pair_views(o).push((d@, k@)));
                    assert(ids.take(i + 1).filter(p).map_values(target(g)) =~= ids.take(
                        i as int,
                    ).filter(p).map_values(target(g)).push((d@, k@)));
                }
                i += 1;
            }
            assert(ids.take(ids.len() as int) =~= ids);
        } else {
            assert(pair_views(out@) =~= Seq::empty());
        }
        out
    }

    /// Resolves query tokens to nodes: a token matches a node whose name holds
    /// a token that it begins. At most `limit` ids, in ascending order.
    pub fn match_tokens(&self, tokens: &Vec<String>, limit: usize) -> (res: Vec<NodeId>)
        requires
            self.wf(),
        ensures
            names::smallest(
                res@,
                names::token_hits(
                    names::token_index(self@.names()),
                    text::views(tokens@),
                    names::hit_cap(limit),
                ),
                limit as nat,
            ),
            forall|i: int| 0 <= i < res@.len() ==> (#[trigger] res@[i]) < self@.nodes.len(),
    {
        self.find_tokens(tokens, limit)
    }

    /// Names of all nodes alive at `t`.
    pub fn alive_at(&self, t: Ts) -> (res: Vec<&str>)
        ensures
            str_views(res@) == named(self@, alive(t)),
    {
        let ghost p = alive(t);
        let ghost nodes = self@.nodes;
        let mut out: Vec<&str> = Vec::new();
        let mut i: usize = 0;
        let n: usize = self.node_count();
        proof {
            reveal(Seq::filter);
            assert(str_views(out@) =~= nodes.take(0).filter(p).map_values(name_of()));
        }
        while i < n
            invariant
                i <= n,
                n == nodes.len(),
                nodes == self@.nodes,
                p == alive(t),
                str_views(out@) == nodes.take(i as int).filter(p).map_values(name_of()),
            decreases n - i,
        {
            let x = self.node_at(i);
            proof {
                lemma_filter_step(nodes, i as int, p);
            }
            if x.alive_at(t) {
                let ghost o = out@;
                let s = x.name.as_str();
                out.push(s);
                assert(str_views(out@) =~= str_views(o).push(s@));
                assert(nodes.take(i + 1).filter(p).map_values(name_of()) =~= nodes.take(
                    i as int,
                ).filter(p).map_values(name_of()).push(x.name@));
            }
            i += 1;
        }
        assert(nodes.take(nodes.len() as int) =~= nodes);
        out
    }

    /// An edge as text: "src -[kind]-> dst".
    fn edge_string(&self, e: &Edge) -> (res: String)
        requires
            e.src < self@.nodes.len(),
            e.dst < self@.nodes.len(),
            e.kind_id < self@.kinds.len(),
        ensures
            res@ == edge_text(self@, *e),
    {
        let mut s = self.node_name(e.src).to_owned();
        s.append(" -[");
        s.append(self.kind_str(e.kind_id));
        s.append("]-> ");
        s.append(self.node_name(e.dst));
        s
    }

    /// What changed from `t1` to `t2`.
    pub fn diff(&self, t1: Ts, t2: Ts) -> (res: GraphDiff)
        requires
            self.wf(),
        ensures
            res@ == diff_of(self@, t1, t2),
    {
        let mut added: Vec<String> = Vec::new();
        let mut removed: Vec<String> = Vec::new();
        let mut changed_names: Vec<String> = Vec::new();
        let ghost g = self@;
        let ghost nodes = g.nodes;
        let ghost pa = appeared(t1, t2);
        let ghost pr = appeared(t2, t1);
        let ghost pc = changed(t1, t2);
        let ghost f = name_of();
        let mut i: usize = 0;
        let n: usize = self.node_count();
        proof {
            self.lemma_wf();
            reveal(Seq::filter);
            assert(text::views(added@) =~= nodes.take(0).filter(pa).map_values(f));
            assert(text::views(removed@) =~= nodes.take(0).filter(pr).map_values(f));
            assert(text::views(changed_names@) =~= nodes.take(0).filter(pc).map_values(f));
        }
        while i < n
            invariant
                i <= n,
                n == nodes.len(),
                nodes == self@.nodes,
                pa == appeared(t1, t2),
                pr == appeared(t2, t1),
                pc == changed(t1, t2),
                f == name_of(),
                text::views(added@) == nodes.take(i as int).filter(pa).map_values(f),
                text::views(removed@) == nodes.take(i as int).filter(pr).map_values(f),
                text::views(changed_names@) == nodes.take(i as int).filter(pc).map_values(f),
            decreases n - i,
        {
            let x = self.node_at(i);
            proof {
                lemma_filter_step(nodes, i as int, pa);
                lemma_filter_step(nodes, i as int, pr);
                lemma_filter_step(nodes, i as int, pc);
                lemma_map_push(nodes.take(i as int).filter(pa), x@, f);
                lemma_map_push(nodes.take(i as int).filter(pr), x@, f);
                lemma_map_push(nodes.take(i as int).filter(pc), x@, f);
                lemma_views_push(added@, x.name);
                lemma_views_push(removed@, x.name);
                lemma_views_push(changed_names@, x.name);
            }
            if !x.placeholder {
                match (x.version_at(t1), x.version_at(t2)) {
                    (None, Some(_)) => {
                        added.push(x.name.clone());
                    },
                    (Some(_), None) => {
                        removed.push(x.name.clone());
                    },
                    (Some(a), Some(b)) => {
                        if a.props_hash != b.props_hash {
                            changed_names.push(x.name.clone());
                        }
                    },
                    (None, None) => {},
                }
            }
            i += 1;
        }
        assert(nodes.take(nodes.len() as int) =~= nodes);
        let mut edges_added: Vec<String> = Vec::new();
        let mut edges_removed: Vec<String> = Vec::new();
        let ghost edges = g.edges;
        let ghost qa = began(t1, t2);
        let ghost qr = began(t2, t1);
        let ghost h = text_in(g);
        let m: usize = self.edge_count();
        i = 0;
        proof {
            assert(text::views(edges_added@) =~= edges.take(0).filter(qa).map_values(h));
            assert(text::views(edges_removed@) =~= edges.take(0).filter(qr).map_values(h));
        }
        while i < m
            invariant
                i <= m,
                m == edges.len(),
                g == self@,
                g.wf(),
                edges == g.edges,
                qa == began(t1, t2),
                qr == began(t2, t1),
                h == text_in(g),
                text::views(edges_added@) == edges.take(i as int).filter(qa).map_values(h),
                text::views(edges_removed@) == edges.take(i as int).filter(qr).map_values(h),
            decreases m - i,
        {
            let e = self.edge_at(i);
            proof {
                assert(g.edges[i as int].src < g.nodes.len());
                lemma_filter_step(edges, i as int, qa);
                lemma_filter_step(edges, i as int, qr);
                lemma_map_push(edges.take(i as int).filter(qa), *e, h);
                lemma_map_push(edges.take(i as int).filter(qr), *e, h);
            }
            let a1 = e.alive_at(t1);
            let a2 = e.alive_at(t2);
            if a1 != a2 {
                let s = self.edge_string(e);
                proof {
                    lemma_views_push(edges_added@, s);
                    lemma_views_push(edges_removed@, s);
                }
                if a2 {
                    edges_added.push(s);
                } else {
                    edges_removed.push(s);
                }
            }
            i += 1;
        }
        assert(edges.take(edges.len() as int) =~= edges);
        GraphDiff {
            nodes_added: added,
            nodes_removed: removed,
            nodes_changed: changed_names,
            edges_added,
            edges_removed,
        }
    }
}

pub proof fn lemma_map_push<A, B>(s: Seq<A>, x: A, f: spec_fn(A) -> B)
    ensures
        s.push(x).map_values(f) == s.map_values(f).push(f(x)),
{
    assert(s.push(x).map_values(f) =~= s.map_values(f).push(f(x)));
}

pub proof fn lemma_views_push(v: Seq<String>, s: String)
    ensures
        text::views(v.push(s)) == text::views(v).push(s@),
{
    assert(text::views(v.push(s)) =~= text::views(v).push(s@));
}

} // verus!
