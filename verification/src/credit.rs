//! Which edges of a retrieval are credited: credit flows back along the edges
//! that carried activation, from the nodes that turned out useful.

use crate::model::{EdgeId, NodeId};
use vstd::prelude::*;

verus! {

/// How one reward for a whole retrieval is shared among what was surfaced.
#[derive(Debug, Clone, Copy, PartialEq, Eq, Structural)]
pub enum Spread {
    /// In proportion to activation.
    ByActivation,
    /// In equal shares.
    Uniform,
}

/// An edge that carried activation from `u` to `v`.
#[derive(Debug, Clone, Copy, PartialEq, Eq, Structural)]
pub struct FiredEdge {
    pub eid: EdgeId,
    pub u: NodeId,
    pub v: NodeId,
}

/// Whether record `i` led to a goal: it ends in one, or a later record takes up
/// where it ends and led to one.
pub open spec fn leads(fired: Seq<FiredEdge>, goals: Set<NodeId>, i: int) -> bool
    decreases fired.len() - i,
{
    0 <= i < fired.len() && (goals.contains(fired[i].v) || exists|j: int|
        i < j < fired.len() && (#[trigger] fired[j]).u == fired[i].v && leads(fired, goals, j))
}

/// The mathematical form of a [`CreditWalk`].
pub struct CreditWalkV {
    pub fired: Seq<FiredEdge>,
    /// The nodes that were useful in themselves.
    pub goals: Set<NodeId>,
    /// How many records are still to be visited: the first ones.
    pub left: nat,
    /// The nodes that credit has reached.
    pub reached: Set<NodeId>,
    /// The edges that were credited, each once.
    pub edges: Seq<EdgeId>,
}

pub open spec fn starts_visited(w: CreditWalkV, n: NodeId) -> bool {
    exists|j: int|
        w.left <= j < w.fired.len() && (#[trigger] w.fired[j]).u == n && leads(
            w.fired,
            w.goals,
            j,
        )
}

pub open spec fn was_visited(w: CreditWalkV, eid: EdgeId) -> bool {
    exists|j: int|
        w.left <= j < w.fired.len() && (#[trigger] w.fired[j]).eid == eid && leads(
            w.fired,
            w.goals,
            j,
        )
}

impl CreditWalkV {
    /// Credit is only where it led to: each node that it reached is a goal or the
    /// start of a record that led to one, and each credited edge is one of a
    /// record that led to one.
    pub open spec fn sound(self) -> bool {
        &&& self.left <= self.fired.len()
        &&& forall|n: NodeId| #[trigger]
            self.reached.contains(n) ==> self.goals.contains(n) || starts_visited(self, n)
        &&& forall|k: int|
            0 <= k < self.edges.len() ==> was_visited(self, #[trigger] self.edges[k])
        &&& self.edges.no_duplicates()
    }

    /// Whether credit has reached the end of a record.
    pub open spec fn reaches(self, i: int) -> bool {
        self.reached.contains(self.fired[i].v)
    }

    /// A walk over the records, with credit at the useful nodes that there are.
    pub open spec fn started(fired: Seq<FiredEdge>, useful: Seq<NodeId>, nodes: nat) -> CreditWalkV {
        CreditWalkV {
            fired,
            goals: nodes_of(useful, nodes),
            left: fired.len(),
            reached: nodes_of(useful, nodes),
            edges: Seq::empty(),
        }
    }

    /// Whether `next` stands at the next record whose end credit has reached.
    pub open spec fn visits(self, next: CreditWalkV) -> bool {
        &&& next == self.at(next.left)
        &&& next.left < self.left
        &&& self.reaches(next.left as int)
        &&& forall|j: int| next.left < j < self.left ==> !#[trigger] self.reaches(j)
    }

    /// Whether credit has reached the end of no record that is left.
    pub open spec fn is_done(self) -> bool {
        forall|j: int| 0 <= j < self.left ==> !#[trigger] self.reaches(j)
    }

    /// The walk at record `i`.
    pub open spec fn at(self, i: nat) -> CreditWalkV {
        CreditWalkV { left: i, ..self }
    }

    /// The walk after the record that it stands at was credited.
    pub open spec fn credited(self, nodes: nat) -> CreditWalkV {
        let f = self.fired[self.left as int];
        CreditWalkV {
            reached: if f.u < nodes {
                self.reached.insert(f.u)
            } else {
                self.reached
            },
            edges: if self.edges.contains(f.eid) {
                self.edges
            } else {
                self.edges.push(f.eid)
            },
            ..self
        }
    }
}

/// A walk over the records of a retrieval, from the last to the first.
pub struct CreditWalk {
    fired: Vec<FiredEdge>,
    goals: Ghost<Set<NodeId>>,
    left: usize,
    reached: Vec<bool>,
    edges: Vec<EdgeId>,
}

impl View for CreditWalk {
    type V = CreditWalkV;

    closed spec fn view(&self) -> CreditWalkV {
        CreditWalkV {
            fired: self.fired@,
            goals: self.goals@,
            left: self.left as nat,
            reached: marked(self.reached@),
            edges: self.edges@,
        }
    }
}

/// The nodes that are marked.
pub open spec fn marked(mask: Seq<bool>) -> Set<NodeId> {
    Set::new(|n: NodeId| n < mask.len() && mask[n as int])
}

/// The nodes of a list that there are.
pub open spec fn nodes_of(ids: Seq<NodeId>, nodes: nat) -> Set<NodeId> {
    Set::new(|n: NodeId| n < nodes && ids.contains(n))
}

impl CreditWalk {
    /// How many nodes there were when the retrieval ran.
    pub closed spec fn nodes(&self) -> nat {
        self.reached@.len()
    }

    /// Starts at the last record, with credit at these nodes.
    pub fn start(fired: Vec<FiredEdge>, useful: &Vec<NodeId>, nodes: usize) -> (res: Self)
        ensures
            res@.sound(),
            res.nodes() == nodes,
            res@ == CreditWalkV::started(fired@, useful@, nodes as nat),
    {
        let mut reached: Vec<bool> = Vec::new();
        let mut i: usize = 0;
        while i < nodes
            invariant
                i <= nodes,
                reached@ == Seq::new(i as nat, |k: int| false),
            decreases nodes - i,
        {
            reached.push(false);
            i += 1;
            assert(reached@ =~= Seq::new(i as nat, |k: int| false));
        }
        let mut j: usize = 0;
        while j < useful.len()
            invariant
                j <= useful@.len(),
                reached@.len() == nodes,
                forall|n: NodeId|
                    n < nodes ==> #[trigger] reached@[n as int] == useful@.take(
                        j as int,
                    ).contains(n),
            decreases useful@.len() - j,
        {
            let n = useful[j];
            let ghost done = useful@.take(j as int);
            if (n as usize) < reached.len() {
                reached[n as usize] = true;
            }
            j += 1;
            assert(useful@.take(j as int) =~= done.push(n));
            assert forall|m: NodeId| done.push(n).contains(m) == (done.contains(m) || m == n) by {
                if done.contains(m) {
                    assert(done.push(n)[done.index_of(m)] == m);
                }
                assert(done.push(n)[done.len() as int] == n);
            }
        }
        let left = fired.len();
        let res = CreditWalk {
            fired,
            goals: Ghost(nodes_of(useful@, nodes as nat)),
            left,
            reached,
            edges: Vec::new(),
        };
        assert(useful@.take(useful@.len() as int) =~= useful@);
        assert(marked(res.reached@) =~= nodes_of(useful@, nodes as nat));
        res
    }

    /// Goes on to the next record whose end credit has reached.
    pub fn visit_next(&mut self) -> (res: Option<FiredEdge>)
        requires
            old(self)@.sound(),
        ensures
            final(self)@.sound(),
            final(self).nodes() == old(self).nodes(),
            final(self)@ == old(self)@.at(final(self)@.left),
            final(self)@.left <= old(self)@.left,
            forall|j: int|
                final(self)@.left < j < old(self)@.left ==> !#[trigger] old(self)@.reaches(j),
            match res {
                Some(f) => final(self)@.left < old(self)@.left && f
                    == old(self)@.fired[final(self)@.left as int] && old(self)@.reaches(
                    final(self)@.left as int,
                ),
                None => final(self)@.left == 0 && (old(self)@.left > 0 ==> !old(self)@.reaches(0)),
            },
            res is Some ==> old(self)@.visits(final(self)@),
            res is None ==> old(self)@.is_done(),
    {
        while self.left > 0
            invariant
                old(self)@.sound(),
                self@ == old(self)@.at(self@.left),
                self@.left <= old(self)@.left,
                self.left <= self.fired@.len(),
                self.nodes() == old(self).nodes(),
                forall|j: int|
                    self.left <= j < old(self)@.left ==> !#[trigger] old(self)@.reaches(j),
            decreases self.left,
        {
            let f = self.fired[self.left - 1];
            let here = (f.v as usize) < self.reached.len() && self.reached[f.v as usize];
            self.left = self.left - 1;
            assert(self@ == old(self)@.at(self.left as nat));
            if here {
                proof {
                    lemma_moved(old(self)@, self.left as nat);
                }
                return Some(f);
            }
            assert(!old(self)@.reaches(self.left as int));
        }
        proof {
            lemma_moved(old(self)@, 0);
        }
        None
    }

    /// Credits the record that was visited last. Returns the place of its edge
    /// among those that were credited.
    pub fn credit(&mut self) -> (res: usize)
        requires
            old(self)@.sound(),
            old(self)@.left < old(self)@.fired.len(),
            old(self)@.reaches(old(self)@.left as int),
        ensures
            final(self)@.sound(),
            final(self).nodes() == old(self).nodes(),
            final(self)@ == old(self)@.credited(old(self).nodes()),
            res < final(self)@.edges.len(),
            final(self)@.edges[res as int] == old(self)@.fired[old(self)@.left as int].eid,
    {
        proof {
            lemma_credited(self@, self.nodes());
        }
        let f = self.fired[self.left];
        let ghost before = self.reached@;
        if (f.u as usize) < self.reached.len() {
            self.reached[f.u as usize] = true;
            assert(marked(self.reached@) =~= marked(before).insert(f.u));
        }
        let mut i: usize = 0;
        while i < self.edges.len()
            invariant
                i <= self.edges@.len(),
                old(self)@.credited(old(self).nodes()).sound(),
                old(self)@.left < old(self)@.fired.len(),
                f == old(self)@.fired[old(self)@.left as int],
                self.nodes() == old(self).nodes(),
                self@ == (CreditWalkV {
                    edges: old(self)@.edges,
                    ..old(self)@.credited(old(self).nodes())
                }),
                self.edges@ == old(self)@.edges,
                forall|k: int| 0 <= k < i ==> self.edges@[k] != f.eid,
            decreases self.edges@.len() - i,
        {
            if self.edges[i] == f.eid {
                assert(self.edges@.contains(f.eid));
                return i;
            }
            i += 1;
        }
        self.edges.push(f.eid);
        i
    }

    /// The record that the walk stands at.
    pub fn at(&self) -> (res: usize)
        ensures
            res == self@.left,
    {
        self.left
    }

    /// The edges that were credited.
    pub fn edges(&self) -> (res: &Vec<EdgeId>)
        ensures
            res@ == self@.edges,
    {
        &self.edges
    }
}

proof fn lemma_moved(w: CreditWalkV, i: nat)
    requires
        w.sound(),
        i <= w.left,
    ensures
        w.at(i).sound(),
{
    let x = w.at(i);
    assert forall|n: NodeId| #[trigger] x.reached.contains(n) implies x.goals.contains(n)
        || starts_visited(x, n) by {
        if !w.goals.contains(n) {
            let j = choose|j: int|
                w.left <= j < w.fired.len() && (#[trigger] w.fired[j]).u == n && leads(
                    w.fired,
                    w.goals,
                    j,
                );
            assert(x.fired[j].u == n);
        }
    }
    assert forall|k: int| 0 <= k < x.edges.len() implies was_visited(x, #[trigger] x.edges[k]) by {
        assert(was_visited(w, w.edges[k]));
        let j = choose|j: int|
            w.left <= j < w.fired.len() && (#[trigger] w.fired[j]).eid == w.edges[k] && leads(
                w.fired,
                w.goals,
                j,
            );
        assert(x.fired[j].eid == x.edges[k]);
    }
}

proof fn lemma_credited(w: CreditWalkV, nodes: nat)
    requires
        w.sound(),
        w.left < w.fired.len(),
        w.reaches(w.left as int),
    ensures
        w.credited(nodes).sound(),
{
    let i = w.left as int;
    let f = w.fired[i];
    let x = w.credited(nodes);
    assert(leads(w.fired, w.goals, i)) by {
        if !w.goals.contains(f.v) {
            assert(starts_visited(w, f.v));
            let j = choose|j: int|
                w.left <= j < w.fired.len() && (#[trigger] w.fired[j]).u == f.v && leads(
                    w.fired,
                    w.goals,
                    j,
                );
            if j == i {
            } else {
                assert(w.fired[j].u == w.fired[i].v);
            }
        }
    }
    assert forall|n: NodeId| #[trigger] x.reached.contains(n) implies x.goals.contains(n)
        || starts_visited(x, n) by {
        if w.reached.contains(n) {
            if !w.goals.contains(n) {
                let j = choose|j: int|
                    w.left <= j < w.fired.len() && (#[trigger] w.fired[j]).u == n && leads(
                        w.fired,
                        w.goals,
                        j,
                    );
                assert(x.fired[j].u == n);
            }
        } else {
            assert(x.fired[i].u == n);
        }
    }
    assert forall|k: int| 0 <= k < x.edges.len() implies was_visited(x, #[trigger] x.edges[k]) by {
        if k < w.edges.len() {
            assert(was_visited(w, w.edges[k]));
            let j = choose|j: int|
                w.left <= j < w.fired.len() && (#[trigger] w.fired[j]).eid == w.edges[k] && leads(
                    w.fired,
                    w.goals,
                    j,
                );
            assert(x.fired[j].eid == x.edges[k]);
        } else {
            assert(x.fired[i].eid == x.edges[k]);
        }
    }
}

/// Feedback is selective: an edge that was credited fired, and its record led,
/// over records that came after it, to a node that was useful in itself.
pub proof fn only_what_led_somewhere_is_credited(w: CreditWalkV, eid: EdgeId)
    requires
        w.sound(),
        w.edges.contains(eid),
    ensures
        exists|i: int|
            0 <= i < w.fired.len() && (#[trigger] w.fired[i]).eid == eid && leads(
                w.fired,
                w.goals,
                i,
            ),
{
    let k = w.edges.index_of(eid);
    assert(was_visited(w, w.edges[k]));
}

/// The states of a walk in which every record that is visited is credited,
/// until none is left to visit.
pub open spec fn is_walk(
    states: Seq<CreditWalkV>,
    fired: Seq<FiredEdge>,
    useful: Seq<NodeId>,
    nodes: nat,
) -> bool {
    &&& states.len() > 0
    &&& states[0] == CreditWalkV::started(fired, useful, nodes)
    &&& forall|k: int| 0 <= k < states.len() - 1 ==> #[trigger] goes_on(states, nodes, k)
    &&& states.last().is_done()
}

/// State `k + 1` is what is left after one more record was visited and credited.
pub open spec fn goes_on(states: Seq<CreditWalkV>, nodes: nat, k: int) -> bool {
    let here = states[k].at(states[k + 1].left);
    states[k].visits(here) && states[k + 1] == here.credited(nodes)
}

/// Records in the order in which they fired, each taking up where the one
/// before it ended, the last of which ended in a useful node.
pub open spec fn is_path(
    path: Seq<int>,
    fired: Seq<FiredEdge>,
    useful: Seq<NodeId>,
    nodes: nat,
) -> bool {
    &&& path.len() > 0
    &&& forall|k: int| 0 <= k < path.len() ==> 0 <= #[trigger] path[k] < fired.len()
    &&& forall|k: int|
        0 <= k < path.len() ==> (#[trigger] fired[path[k]]).v < nodes
    &&& forall|k: int, m: int|
        0 <= k < path.len() && m == k + 1 && m < path.len() ==> #[trigger] path[k]
            < #[trigger] path[m] && fired[path[m]].u == fired[path[k]].v
    &&& useful.contains(fired[path.last()].v)
}

/// A later state of a walk has reached and credited what an earlier one had.
proof fn lemma_walk_grows(
    states: Seq<CreditWalkV>,
    fired: Seq<FiredEdge>,
    useful: Seq<NodeId>,
    nodes: nat,
    m: int,
    n: int,
)
    requires
        is_walk(states, fired, useful, nodes),
        0 <= m <= n < states.len(),
    ensures
        states[m].fired == fired,
        states[n].fired == fired,
        states[m].reached.subset_of(states[n].reached),
        forall|e: EdgeId| #[trigger]
            states[m].edges.contains(e) ==> states[n].edges.contains(e),
    decreases n,
{
    if m < n {
        lemma_walk_grows(states, fired, useful, nodes, m, n - 1);
        assert(goes_on(states, nodes, n - 1));
        let a = states[n - 1].edges;
        assert forall|e: EdgeId| #[trigger] states[m].edges.contains(e) implies states[n]
            .edges.contains(e) by {
            let k = a.index_of(e);
            assert(states[n].edges[k] == e);
        }
    } else if n > 0 {
        lemma_walk_grows(states, fired, useful, nodes, n - 1, n - 1);
        assert(goes_on(states, nodes, n - 1));
    }
}

/// A record that is left and whose end credit has reached comes up.
proof fn lemma_walk_arrives(
    states: Seq<CreditWalkV>,
    fired: Seq<FiredEdge>,
    useful: Seq<NodeId>,
    nodes: nat,
    m: int,
    i: int,
) -> (n: int)
    requires
        is_walk(states, fired, useful, nodes),
        0 <= m < states.len(),
        0 <= i < states[m].left,
        states[m].reaches(i),
    ensures
        m < n < states.len(),
        states[n].left == i,
        fired[i].u < nodes ==> states[n].reached.contains(fired[i].u),
        states[n].edges.contains(fired[i].eid),
    decreases states.len() - m,
{
    lemma_walk_grows(states, fired, useful, nodes, m, m);
    assert(m < states.len() - 1);
    assert(goes_on(states, nodes, m));
    let next = states[m + 1];
    if next.left > i {
        assert(states[m + 1].reaches(i));
        lemma_walk_arrives(states, fired, useful, nodes, m + 1, i)
    } else {
        assert(next.left == i);
        let before = states[m].edges;
        if before.contains(fired[i].eid) {
        } else {
            assert(next.edges[before.len() as int] == fired[i].eid);
        }
        m + 1
    }
}

/// The first record of a path is credited, and credit goes on to its start.
proof fn lemma_path_is_credited(
    states: Seq<CreditWalkV>,
    fired: Seq<FiredEdge>,
    useful: Seq<NodeId>,
    nodes: nat,
    path: Seq<int>,
) -> (n: int)
    requires
        is_walk(states, fired, useful, nodes),
        is_path(path, fired, useful, nodes),
    ensures
        0 <= n < states.len(),
        states[n].left == path[0],
        fired[path[0]].u < nodes ==> states[n].reached.contains(fired[path[0]].u),
        states[n].edges.contains(fired[path[0]].eid),
    decreases path.len(),
{
    lemma_walk_grows(states, fired, useful, nodes, 0, 0);
    let v = fired[path[0]].v;
    assert(0 <= path[0] < fired.len());
    assert(fired[path[0]].v < nodes);
    if path.len() == 1 {
        assert(states[0].reached.contains(v));
        assert(states[0].reaches(path[0]));
        lemma_walk_arrives(states, fired, useful, nodes, 0, path[0])
    } else {
        let rest = path.skip(1);
        assert forall|k: int| 0 <= k < rest.len() implies 0 <= #[trigger] rest[k] < fired.len()
            && fired[rest[k]].v < nodes by {
            assert(rest[k] == path[k + 1]);
            assert(fired[path[k + 1]].v < nodes);
        }
        assert forall|k: int, m: int|
            0 <= k < rest.len() && m == k + 1 && m < rest.len() implies #[trigger] rest[k]
            < #[trigger] rest[m] && fired[rest[m]].u == fired[rest[k]].v by {
            assert(path[k + 1] < path[k + 2]);
        }
        assert(rest.last() == path.last());
        let m = lemma_path_is_credited(states, fired, useful, nodes, rest);
        assert(path[0] < path[1] && fired[path[1]].u == fired[path[0]].v);
        lemma_walk_grows(states, fired, useful, nodes, m, m);
        assert(states[m].reaches(path[0]));
        lemma_walk_arrives(states, fired, useful, nodes, m, path[0])
    }
}

/// Feedback reaches all that helped: when a walk is done, the edge of every
/// record from which records that fired after one another lead to a useful node
/// is among the edges that were credited, however far back it is.
pub proof fn all_that_led_somewhere_is_credited(
    states: Seq<CreditWalkV>,
    fired: Seq<FiredEdge>,
    useful: Seq<NodeId>,
    nodes: nat,
    path: Seq<int>,
)
    requires
        is_walk(states, fired, useful, nodes),
        is_path(path, fired, useful, nodes),
    ensures
        states.last().edges.contains(fired[path[0]].eid),
{
    let n = lemma_path_is_credited(states, fired, useful, nodes, path);
    lemma_walk_grows(states, fired, useful, nodes, n, states.len() - 1);
}

/// Feedback stays on what helped: an edge that a walk credited is that of a
/// record from which records that fired after one another lead to a useful node,
/// and no edge is credited twice.
pub proof fn what_is_credited_led_somewhere(
    states: Seq<CreditWalkV>,
    fired: Seq<FiredEdge>,
    useful: Seq<NodeId>,
    nodes: nat,
    eid: EdgeId,
)
    requires
        is_walk(states, fired, useful, nodes),
        states.last().edges.contains(eid),
    ensures
        exists|path: Seq<int>| #[trigger]
            is_path(path, fired, useful, nodes) && fired[path[0]].eid == eid,
        states.last().edges.no_duplicates(),
{
    lemma_walk_paths(states, fired, useful, nodes, states.len() - 1);
    let w = states.last();
    let k = w.edges.index_of(eid);
    assert(w.edges[k] == eid);
}

/// What a state has reached and credited lies on a path.
proof fn lemma_walk_paths(
    states: Seq<CreditWalkV>,
    fired: Seq<FiredEdge>,
    useful: Seq<NodeId>,
    nodes: nat,
    n: int,
)
    requires
        is_walk(states, fired, useful, nodes),
        0 <= n < states.len(),
    ensures
        states[n].left <= fired.len(),
        states[n].edges.no_duplicates(),
        forall|v: NodeId| #[trigger]
            states[n].reached.contains(v) ==> v < nodes && (useful.contains(v) || exists|
                path: Seq<int>,
            | #[trigger]
                is_path(path, fired, useful, nodes) && path[0] >= states[n].left
                    && fired[path[0]].u == v),
        forall|k: int|
            0 <= k < states[n].edges.len() ==> exists|path: Seq<int>| #[trigger]
                is_path(path, fired, useful, nodes) && fired[path[0]].eid
                    == #[trigger] states[n].edges[k],
    decreases n,
{
    if n > 0 {
        lemma_walk_paths(states, fired, useful, nodes, n - 1);
        lemma_walk_grows(states, fired, useful, nodes, n - 1, n);
        assert(goes_on(states, nodes, n - 1));
        let a = states[n - 1];
        let b = states[n];
        let i = b.left as int;
        let v = fired[i].v;
        assert(a.reached.contains(v));
        let here = if useful.contains(v) {
            seq![i]
        } else {
            let path = choose|path: Seq<int>| #[trigger]
                is_path(path, fired, useful, nodes) && path[0] >= a.left && fired[path[0]].u == v;
            seq![i] + path
        };
        assert(is_path(here, fired, useful, nodes)) by {
            if !useful.contains(v) {
                let path = here.skip(1);
                assert(here =~= seq![i] + path);
                assert(here.last() == path.last());
                assert forall|k: int| 0 <= k < here.len() implies 0 <= #[trigger] here[k]
                    < fired.len() && fired[here[k]].v < nodes by {
                    if k > 0 {
                        assert(here[k] == path[k - 1]);
                        assert(fired[path[k - 1]].v < nodes);
                    }
                }
                assert forall|k: int, m: int|
                    0 <= k < here.len() && m == k + 1 && m < here.len() implies #[trigger] here[k]
                    < #[trigger] here[m] && fired[here[m]].u == fired[here[k]].v by {
                    if k > 0 {
                        assert(path[k - 1] < path[m - 1]);
                    }
                }
            }
        }
        assert(here[0] == i);
        assert forall|k: int| 0 <= k < b.edges.len() implies exists|path: Seq<int>| #[trigger]
            is_path(path, fired, useful, nodes) && fired[path[0]].eid == #[trigger] b.edges[k] by {
            if k < a.edges.len() {
                assert(b.edges[k] == a.edges[k]);
            } else {
                assert(fired[here[0]].eid == b.edges[k]);
            }
        }
    }
}

} // verus!
