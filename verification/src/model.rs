//! The mathematical graph: what every operation does to it, and what every
//! query reads from it.

use crate::interner;
use crate::json;
use crate::json::JsonV;
use crate::names;
use crate::text;
use std::collections::hash_map::DefaultHasher;
use vstd::prelude::*;
use vstd::utf8;

verus! {

/// Unix milliseconds.
pub type Ts = i64;

/// The end of an interval that is still open.
pub const T_MAX: Ts = i64::MAX;

/// A node: a dense index in the order of first mention.
pub type NodeId = u32;

/// An edge record: a dense index in the order of observation.
pub type EdgeId = u32;

/// Memory that a node, a version and an edge are estimated to cost beside
/// the text they hold.
pub const NODE_OVERHEAD: usize = 160;

pub const VERSION_OVERHEAD: usize = 72;

pub const EDGE_OVERHEAD: usize = 104;

/// One interval during which a relation was observed to hold.
#[derive(Debug, Clone, Copy)]
pub struct Edge {
    pub src: NodeId,
    pub dst: NodeId,
    pub kind_id: u32,
    /// Provenance label (0 = none), set at the first observation of the
    /// interval.
    pub origin_id: u32,
    pub valid_from: Ts,
    /// `T_MAX` while open.
    pub valid_to: Ts,
}

impl Edge {
    pub open spec fn holds_at(self, t: Ts) -> bool {
        self.valid_from <= t && t < self.valid_to
    }

    /// The relation that the record is about.
    pub open spec fn key(self) -> (NodeId, NodeId, u32) {
        (self.src, self.dst, self.kind_id)
    }

    /// Whether the relation was observed to hold at `t`.
    pub fn alive_at(&self, t: Ts) -> (res: bool)
        ensures
            res == self.holds_at(t),
    {
        self.valid_from <= t && t < self.valid_to
    }
}

/// One interval during which a node had certain properties.
pub struct VersionV {
    pub observed_at: Ts,
    pub retired_at: Ts,
    pub origin_id: u32,
    pub props_hash: u64,
    pub props: Seq<char>,
}

impl VersionV {
    pub open spec fn holds_at(self, t: Ts) -> bool {
        self.observed_at <= t && t < self.retired_at
    }
}

/// A node with its history.
#[verifier::ext_equal]
pub struct NodeV {
    pub name: Seq<char>,
    pub type_id: u32,
    pub versions: Seq<VersionV>,
    pub placeholder: bool,
}

/// The last version that holds at `t`.
pub open spec fn version_at(versions: Seq<VersionV>, t: Ts) -> Option<VersionV>
    decreases versions.len(),
{
    if versions.len() == 0 {
        None
    } else if versions.last().holds_at(t) {
        Some(versions.last())
    } else {
        version_at(versions.drop_last(), t)
    }
}

/// The last version, where it is still open.
pub open spec fn open_version(versions: Seq<VersionV>) -> Option<VersionV> {
    if versions.len() > 0 && versions.last().retired_at == T_MAX {
        Some(versions.last())
    } else {
        None
    }
}

/// The versions with the open one, if any, closed at `ts`.
pub open spec fn closed_at(versions: Seq<VersionV>, ts: Ts) -> Seq<VersionV> {
    if open_version(versions) is Some {
        versions.drop_last().push(VersionV { retired_at: ts, ..versions.last() })
    } else {
        versions
    }
}

impl NodeV {
    pub open spec fn alive_at(self, t: Ts) -> bool {
        version_at(self.versions, t) is Some
    }
}

/// The hash by which properties are compared.
pub open spec fn text_hash(s: Seq<char>) -> u64 {
    <DefaultHasher as vstd::std_specs::hash::DefaultHasherAdditionalSpecFns>::spec_finish(
        seq![utf8::encode_utf8(s), seq![0xffu8]],
    )
}

/// The label table with the empty label first and `origin` in it.
pub open spec fn origins_with(table: Seq<Seq<char>>, origin: Option<Seq<char>>) -> Seq<Seq<char>> {
    let base = interner::interned(table, Seq::empty());
    match origin {
        Some(o) => if o.len() > 0 {
            interner::interned(base, o)
        } else {
            base
        },
        None => base,
    }
}

/// The number of a label: 0 for none and for the empty one.
pub open spec fn origin_number(table: Seq<Seq<char>>, origin: Option<Seq<char>>) -> u32 {
    match origin {
        Some(o) => if o.len() > 0 {
            interner::number_of(table, o)
        } else {
            0
        },
        None => 0,
    }
}

/// One mutation, addressed by names.
pub enum OpV {
    ObserveNode {
        name: Seq<char>,
        asset_type: Seq<char>,
        props: JsonV,
        ts: Ts,
        origin: Option<Seq<char>>,
    },
    ObservePlaceholder {
        name: Seq<char>,
        inferred_type: Seq<char>,
        ts: Ts,
        origin: Option<Seq<char>>,
    },
    RetireNode { name: Seq<char>, ts: Ts },
    ObserveEdge {
        src: Seq<char>,
        dst: Seq<char>,
        kind: Seq<char>,
        ts: Ts,
        origin: Option<Seq<char>>,
    },
    RetireEdge { src: Seq<char>, dst: Seq<char>, kind: Seq<char>, ts: Ts },
}

/// The type given to a node that is known only as the end of an edge.
pub open spec fn unknown_type() -> Seq<char> {
    "unknown/unknown"@
}

/// The graph.
#[verifier::ext_equal]
pub struct GraphV {
    pub types: Seq<Seq<char>>,
    pub kinds: Seq<Seq<char>>,
    pub origins: Seq<Seq<char>>,
    pub nodes: Seq<NodeV>,
    pub ids: Map<Seq<char>, NodeId>,
    pub edges: Seq<Edge>,
    /// The record of each relation that is open.
    pub open: Map<(NodeId, NodeId, u32), EdgeId>,
    /// The memory estimate.
    pub bytes: nat,
}

impl GraphV {
    pub open spec fn empty() -> GraphV {
        GraphV {
            types: Seq::empty(),
            kinds: Seq::empty(),
            origins: Seq::empty(),
            nodes: Seq::empty(),
            ids: Map::empty(),
            edges: Seq::empty(),
            open: Map::empty(),
            bytes: 0,
        }
    }

    pub open spec fn names(self) -> Seq<Seq<char>> {
        self.nodes.map_values(|n: NodeV| n.name)
    }

    pub open spec fn id_of(self, name: Seq<char>) -> Option<NodeId> {
        if self.ids.contains_key(name) {
            Some(self.ids[name])
        } else {
            None
        }
    }

    pub open spec fn type_of(self, id: NodeId) -> Seq<char> {
        self.types[self.nodes[id as int].type_id as int]
    }

    /// The provenance label of the version of a node that holds at `t`.
    pub open spec fn node_origin_at(self, id: NodeId, t: Ts) -> Seq<char> {
        match version_at(self.nodes[id as int].versions, t) {
            Some(v) => if v.origin_id != 0 {
                self.origins[v.origin_id as int]
            } else {
                Seq::empty()
            },
            None => Seq::empty(),
        }
    }

    /// The graph with a node called `name` in it. A placeholder that is now
    /// observed for real takes the type given.
    pub open spec fn with_node(self, name: Seq<char>, type_id: u32, placeholder: bool) -> GraphV {
        if self.ids.contains_key(name) {
            let id = self.ids[name] as int;
            let n = self.nodes[id];
            if n.placeholder && !placeholder {
                GraphV {
                    nodes: self.nodes.update(id, NodeV { placeholder: false, type_id, ..n }),
                    ..self
                }
            } else {
                self
            }
        } else {
            let bytes = names::saturating(
                names::saturating(self.bytes, NODE_OVERHEAD as nat),
                text::utf8_len(name) * 2,
            );
            GraphV {
                nodes: self.nodes.push(NodeV { name, type_id, versions: Seq::empty(), placeholder }),
                ids: self.ids.insert(name, self.nodes.len() as NodeId),
                bytes: names::tokens_cost(bytes, names::tokens(name)),
                ..self
            }
        }
    }

    /// The graph with `v` appended to the history of node `id`, whose open
    /// version, if any, is closed at `v`'s start.
    pub open spec fn with_version(self, id: NodeId, v: VersionV) -> GraphV {
        let n = self.nodes[id as int];
        let versions = closed_at(n.versions, v.observed_at).push(v);
        GraphV {
            nodes: self.nodes.update(id as int, NodeV { versions, ..n }),
            bytes: names::saturating(
                names::saturating(self.bytes, VERSION_OVERHEAD as nat),
                text::utf8_len(v.props),
            ),
            ..self
        }
    }

    /// The labels and types that an observation of a node brings in.
    pub open spec fn with_labels(self, ty: Seq<char>, origin: Option<Seq<char>>) -> GraphV {
        GraphV {
            origins: origins_with(self.origins, origin),
            types: interner::interned(self.types, ty),
            ..self
        }
    }

    /// Observation of a node's properties, given as JSON text. Nothing is
    /// added where the open version has the same hash.
    pub open spec fn observe_node(
        self,
        name: Seq<char>,
        ty: Seq<char>,
        props: Seq<char>,
        ts: Ts,
        origin: Option<Seq<char>>,
    ) -> GraphV {
        let l = self.with_labels(ty, origin);
        let g = l.with_node(name, interner::number_of(l.types, ty), false);
        let id = g.ids[name];
        let current = open_version(g.nodes[id as int].versions);
        let hash = text_hash(props);
        if current is Some && current->0.props_hash == hash {
            g
        } else {
            g.with_version(
                id,
                VersionV {
                    observed_at: ts,
                    retired_at: T_MAX,
                    origin_id: origin_number(l.origins, origin),
                    props_hash: hash,
                    props,
                },
            )
        }
    }

    /// Mention of a node that has not been observed itself. It is alive from
    /// `ts` on where it was not.
    pub open spec fn observe_placeholder(
        self,
        name: Seq<char>,
        ty: Seq<char>,
        ts: Ts,
        origin: Option<Seq<char>>,
    ) -> GraphV {
        let l = self.with_labels(ty, origin);
        let g = l.with_node(name, interner::number_of(l.types, ty), true);
        let id = g.ids[name];
        if open_version(g.nodes[id as int].versions) is Some {
            g
        } else {
            g.with_version(
                id,
                VersionV {
                    observed_at: ts,
                    retired_at: T_MAX,
                    origin_id: origin_number(l.origins, origin),
                    props_hash: 0,
                    props: seq!['n', 'u', 'l', 'l'],
                },
            )
        }
    }

    /// The graph with edge record `eid` closed at `ts`.
    pub open spec fn close_edge(self, eid: EdgeId, ts: Ts) -> GraphV {
        let e = self.edges[eid as int];
        GraphV {
            edges: self.edges.update(eid as int, Edge { valid_to: ts, ..e }),
            open: self.open.remove(e.key()),
            ..self
        }
    }

    /// The graph with those of `eids` that are open closed at `ts`.
    pub open spec fn close_edges(self, eids: Seq<EdgeId>, ts: Ts) -> GraphV
        decreases eids.len(),
    {
        if eids.len() == 0 {
            self
        } else {
            let g = self.close_edges(eids.drop_last(), ts);
            if g.edges[eids.last() as int].valid_to == T_MAX {
                g.close_edge(eids.last(), ts)
            } else {
                g
            }
        }
    }

    /// Retirement of a node: its open version and its open edges end at `ts`.
    pub open spec fn retire_node(self, name: Seq<char>, ts: Ts) -> GraphV {
        if self.ids.contains_key(name) {
            let id = self.ids[name];
            let n = self.nodes[id as int];
            GraphV {
                nodes: self.nodes.update(
                    id as int,
                    NodeV { versions: closed_at(n.versions, ts), ..n },
                ),
                ..self
            }.close_edges(self.out_ids(id) + self.in_ids(id), ts)
        } else {
            self
        }
    }

    /// Observation of an edge. Nothing is added while the relation is open.
    pub open spec fn observe_edge(
        self,
        src: NodeId,
        dst: NodeId,
        kind: Seq<char>,
        ts: Ts,
        origin: Option<Seq<char>>,
    ) -> GraphV {
        let g = GraphV {
            origins: origins_with(self.origins, origin),
            kinds: interner::interned(self.kinds, kind),
            ..self
        };
        let kind_id = interner::number_of(g.kinds, kind);
        let e = Edge {
            src,
            dst,
            kind_id,
            origin_id: origin_number(g.origins, origin),
            valid_from: ts,
            valid_to: T_MAX,
        };
        if g.open.contains_key(e.key()) {
            g
        } else {
            GraphV {
                edges: g.edges.push(e),
                open: g.open.insert(e.key(), g.edges.len() as EdgeId),
                bytes: names::saturating(g.bytes, EDGE_OVERHEAD as nat),
                ..g
            }
        }
    }

    /// The record that an observation of the edge leaves open.
    pub open spec fn edge_id(self, src: NodeId, dst: NodeId, kind: Seq<char>) -> EdgeId {
        self.open[(src, dst, interner::number_of(self.kinds, kind))]
    }

    /// Retirement of an edge, which does nothing where it is not open.
    pub open spec fn retire_edge(
        self,
        src: NodeId,
        dst: NodeId,
        kind: Seq<char>,
        ts: Ts,
    ) -> GraphV {
        let key = (src, dst, interner::number_of(self.kinds, kind));
        if self.kinds.contains(kind) && self.open.contains_key(key) {
            self.close_edge(self.open[key], ts)
        } else {
            self
        }
    }

    /// The graph with a node called `name`, which is made a placeholder of
    /// unknown type where there was none.
    pub open spec fn with_endpoint(self, name: Seq<char>, ts: Ts) -> GraphV {
        if self.ids.contains_key(name) {
            self
        } else {
            self.observe_placeholder(name, unknown_type(), ts, None)
        }
    }

    /// Making an end of an edge present keeps the nodes that are present.
    pub proof fn lemma_endpoint_keeps(self, name: Seq<char>, ts: Ts, other: Seq<char>)
        requires
            self.wf(),
            self.ids.contains_key(other),
        ensures
            self.with_endpoint(name, ts).ids.contains_key(other),
            self.with_endpoint(name, ts).ids[other] == self.ids[other],
            self.with_endpoint(name, ts).nodes.len() >= self.nodes.len(),
            self.with_endpoint(name, ts).nodes.len() <= self.nodes.len() + 1,
    {
    }

    /// The graph after one mutation.
    pub open spec fn apply(self, op: OpV) -> GraphV {
        match op {
            OpV::ObserveNode { name, asset_type, props, ts, origin } => self.observe_node(
                name,
                asset_type,
                json::canonical_text(props),
                ts,
                origin,
            ),
            OpV::ObservePlaceholder { name, inferred_type, ts, origin } => self.observe_placeholder(
                name,
                inferred_type,
                ts,
                origin,
            ),
            OpV::RetireNode { name, ts } => self.retire_node(name, ts),
            OpV::ObserveEdge { src, dst, kind, ts, origin } => {
                let g = self.with_endpoint(src, ts).with_endpoint(dst, ts);
                g.observe_edge(g.ids[src], g.ids[dst], kind, ts, origin)
            },
            OpV::RetireEdge { src, dst, kind, ts } => {
                if self.ids.contains_key(src) && self.ids.contains_key(dst) {
                    self.retire_edge(self.ids[src], self.ids[dst], kind, ts)
                } else {
                    self
                }
            },
        }
    }

    /// Making an end of an edge present takes one id, one type and the empty
    /// label at most.
    proof fn lemma_endpoint_room(self, name: Seq<char>, ts: Ts)
        ensures
            ({
                let a = self.with_endpoint(name, ts);
                &&& a.nodes.len() <= self.nodes.len() + 1
                &&& a.types.len() <= self.types.len() + 1
                &&& a.edges == self.edges
                &&& a.kinds == self.kinds
                &&& a.origins == self.origins || a.origins == interner::interned(
                    self.origins,
                    Seq::empty(),
                )
            }),
    {
    }

    /// The empty label is added once.
    proof fn lemma_empty_label(table: Seq<Seq<char>>)
        ensures
            interner::interned(table, Seq::empty()).contains(Seq::empty()),
            interner::interned(interner::interned(table, Seq::empty()), Seq::empty())
                == interner::interned(table, Seq::empty()),
    {
        let t = interner::interned(table, Seq::empty());
        if !table.contains(Seq::empty()) {
            assert(t[t.len() - 1] == Seq::<char>::empty());
        }
    }

    /// A mutation takes at most the ids of one.
    pub proof fn lemma_apply_room(self, op: OpV, n: nat)
        requires
            self.wf(),
            self.room(n),
            n > 0,
        ensures
            self.accepts(op),
            self.apply(op).room((n - 1) as nat),
    {
        match op {
            OpV::ObserveEdge { src, dst, kind, ts, origin } => {
                let a = self.with_endpoint(src, ts);
                let b = a.with_endpoint(dst, ts);
                self.lemma_endpoint_room(src, ts);
                a.lemma_endpoint_room(dst, ts);
                Self::lemma_empty_label(self.origins);
                assert(origins_with(b.origins, origin).len() <= self.origins.len() + 2);
            },
            OpV::RetireNode { name, ts } => {
                if self.ids.contains_key(name) {
                    let id = self.ids[name];
                    let n1 = self.nodes[id as int];
                    let g = GraphV {
                        nodes: self.nodes.update(
                            id as int,
                            NodeV { versions: closed_at(n1.versions, ts), ..n1 },
                        ),
                        ..self
                    };
                    self.lemma_touching_in_range(id);
                    g.lemma_close_edges_frame(self.out_ids(id) + self.in_ids(id), ts);
                }
            },
            _ => {},
        }
    }

    /// The records of edges that touch a node are records of the graph.
    pub proof fn lemma_touching_in_range(self, id: NodeId)
        requires
            self.edges.len() <= u32::MAX,
        ensures
            forall|k: int|
                0 <= k < (self.out_ids(id) + self.in_ids(id)).len() ==> (#[trigger] (self.out_ids(id)
                    + self.in_ids(id))[k]) < self.edges.len(),
    {
        lemma_edge_ids(self.edges, leaves(id));
        lemma_edge_ids(self.edges, arrives(id));
        let a = self.out_ids(id);
        let all = a + self.in_ids(id);
        assert forall|k: int| 0 <= k < all.len() implies (#[trigger] all[k]) < self.edges.len() by {
            if k < a.len() {
                assert(all[k] == self.out_ids(id)[k]);
            } else {
                assert(all[k] == self.in_ids(id)[k - a.len()]);
            }
        }
    }

    /// Closing edges changes nothing but when edges end and which are open.
    pub proof fn lemma_close_edges_frame(self, eids: Seq<EdgeId>, ts: Ts)
        requires
            forall|k: int| 0 <= k < eids.len() ==> (#[trigger] eids[k]) < self.edges.len(),
        ensures
            ({
                let g = self.close_edges(eids, ts);
                &&& g == (GraphV { edges: g.edges, open: g.open, ..self })
                &&& g.edges.len() == self.edges.len()
            }),
        decreases eids.len(),
    {
        if eids.len() > 0 {
            assert(eids[eids.len() - 1] < self.edges.len());
            assert forall|k: int| 0 <= k < eids.drop_last().len() implies (
            #[trigger] eids.drop_last()[k]) < self.edges.len() by {
                assert(eids[k] < self.edges.len());
            }
            self.lemma_close_edges_frame(eids.drop_last(), ts);
        }
    }

    /// The graph after a sequence of mutations.
    pub open spec fn apply_all(self, ops: Seq<OpV>) -> GraphV
        decreases ops.len(),
    {
        if ops.len() == 0 {
            self
        } else {
            self.apply_all(ops.drop_last()).apply(ops.last())
        }
    }

    /// The records of edges that leave node `id`, in the order of observation.
    pub open spec fn out_ids(self, id: NodeId) -> Seq<EdgeId> {
        edge_ids(self.edges, leaves(id))
    }

    /// The records of edges that arrive at node `id`.
    pub open spec fn in_ids(self, id: NodeId) -> Seq<EdgeId> {
        edge_ids(self.edges, arrives(id))
    }

    /// Ids, tables and open records fit together, and an edge joins nodes.
    pub open spec fn wf(self) -> bool {
        &&& self.nodes.len() <= u32::MAX
        &&& self.edges.len() <= u32::MAX
        &&& self.types.len() <= u32::MAX + 1
        &&& self.kinds.len() <= u32::MAX + 1
        &&& self.origins.len() <= u32::MAX + 1
        &&& self.types.no_duplicates()
        &&& self.kinds.no_duplicates()
        &&& self.origins.no_duplicates()
        &&& self.origins.len() > 0 ==> self.origins[0] == Seq::<char>::empty()
        &&& forall|i: int|
            0 <= i < self.nodes.len() ==> self.ids.contains_key((#[trigger] self.nodes[i]).name)
                && self.ids[self.nodes[i].name] == i
        &&& forall|k: Seq<char>| #[trigger]
            self.ids.contains_key(k) ==> self.ids[k] < self.nodes.len()
                && self.nodes[self.ids[k] as int].name == k
        &&& forall|i: int|
            0 <= i < self.nodes.len() ==> (#[trigger] self.nodes[i]).type_id < self.types.len()
        &&& forall|i: int, j: int|
            0 <= i < self.nodes.len() && 0 <= j < self.nodes[i].versions.len()
                ==> (#[trigger] self.nodes[i].versions[j]).origin_id < self.origins.len()
        &&& forall|i: int|
            0 <= i < self.edges.len() ==> {
                let e = #[trigger] self.edges[i];
                &&& e.src < self.nodes.len()
                &&& e.dst < self.nodes.len()
                &&& e.kind_id < self.kinds.len()
                &&& e.origin_id < self.origins.len()
            }
        &&& forall|k: (NodeId, NodeId, u32)| #[trigger]
            self.open.contains_key(k) ==> self.open[k] < self.edges.len()
                && self.edges[self.open[k] as int].key() == k
                && self.edges[self.open[k] as int].valid_to == T_MAX
    }

    /// Whether the mutation can be applied: only observations need ids.
    pub open spec fn accepts(self, op: OpV) -> bool {
        match op {
            OpV::RetireNode { .. } => true,
            OpV::RetireEdge { .. } => true,
            _ => self.room(1),
        }
    }

    /// Ids are left for `n` more mutations.
    pub open spec fn room(self, n: nat) -> bool {
        &&& self.nodes.len() + 2 * n <= u32::MAX
        &&& self.edges.len() + n <= u32::MAX
        &&& self.types.len() + 2 * n <= u32::MAX
        &&& self.kinds.len() + n <= u32::MAX
        &&& self.origins.len() + 2 * n <= u32::MAX
    }
}

pub open spec fn leaves(id: NodeId) -> spec_fn(Edge) -> bool {
    |e: Edge| e.src == id
}

pub open spec fn arrives(id: NodeId) -> spec_fn(Edge) -> bool {
    |e: Edge| e.dst == id
}

/// The positions at which `p` holds, in ascending order.
pub open spec fn edge_ids(edges: Seq<Edge>, p: spec_fn(Edge) -> bool) -> Seq<EdgeId>
    decreases edges.len(),
{
    if edges.len() == 0 {
        Seq::empty()
    } else {
        let before = edge_ids(edges.drop_last(), p);
        if p(edges.last()) {
            before.push((edges.len() - 1) as EdgeId)
        } else {
            before
        }
    }
}

/// The version alive at `t` is one of the versions and holds at `t`.
pub proof fn lemma_version_at_is_version(versions: Seq<VersionV>, t: Ts)
    ensures
        version_at(versions, t) matches Some(v) ==> v.holds_at(t) && exists|k: int|
            0 <= k < versions.len() && versions[k] == v,
        version_at(versions, t) is None ==> forall|k: int|
            0 <= k < versions.len() ==> !(#[trigger] versions[k]).holds_at(t),
    decreases versions.len(),
{
    if versions.len() > 0 {
        let front = versions.drop_last();
        lemma_version_at_is_version(front, t);
        if versions.last().holds_at(t) {
            assert(versions[versions.len() - 1] == versions.last());
        } else {
            if version_at(front, t) is Some {
                let k = choose|k: int| 0 <= k < front.len() && front[k] == version_at(front, t)->0;
                assert(versions[k] == front[k]);
            } else {
                assert forall|k: int| 0 <= k < versions.len() implies !(
                #[trigger] versions[k]).holds_at(t) by {
                    if k < front.len() {
                        assert(!front[k].holds_at(t));
                    }
                }
            }
        }
    }
}

/// Which records leave a node depends on where edges begin alone.
pub proof fn lemma_edge_ids_same(a: Seq<Edge>, b: Seq<Edge>, p: spec_fn(Edge) -> bool)
    requires
        a.len() == b.len(),
        forall|i: int| 0 <= i < a.len() ==> #[trigger] p(a[i]) == p(b[i]),
    ensures
        edge_ids(a, p) == edge_ids(b, p),
    decreases a.len(),
{
    if a.len() > 0 {
        assert forall|i: int| 0 <= i < a.drop_last().len() implies #[trigger] p(a.drop_last()[i])
            == p(b.drop_last()[i]) by {
            assert(p(a[i]) == p(b[i]));
        }
        lemma_edge_ids_same(a.drop_last(), b.drop_last(), p);
        assert(p(a[a.len() - 1]) == p(b[a.len() - 1]));
    }
}

/// `edge_ids` lists exactly the positions at which `p` holds, in order.
pub proof fn lemma_edge_ids(edges: Seq<Edge>, p: spec_fn(Edge) -> bool)
    requires
        edges.len() <= u32::MAX,
    ensures
        forall|k: int|
            0 <= k < edge_ids(edges, p).len() ==> (#[trigger] edge_ids(edges, p)[k]) < edges.len()
                && p(edges[edge_ids(edges, p)[k] as int]),
        forall|i: int|
            0 <= i < edges.len() && p(#[trigger] edges[i]) ==> edge_ids(edges, p).contains(i as u32),
        names::ascending(edge_ids(edges, p)),
    decreases edges.len(),
{
    if edges.len() > 0 {
        let front = edges.drop_last();
        let before = edge_ids(front, p);
        lemma_edge_ids(front, p);
        let all = edge_ids(edges, p);
        assert forall|k: int| 0 <= k < all.len() implies (#[trigger] all[k]) < edges.len() && p(
            edges[all[k] as int],
        ) by {
            if k < before.len() {
                assert(all[k] == before[k]);
                assert(front[before[k] as int] == edges[before[k] as int]);
            }
        }
        assert forall|i: int| 0 <= i < edges.len() && p(#[trigger] edges[i]) implies all.contains(
            i as u32,
        ) by {
            if i < front.len() {
                assert(front[i] == edges[i]);
                let k = before.index_of(i as u32);
                assert(before.contains(i as u32));
                assert(all[k] == i as u32);
            } else {
                assert(all[all.len() - 1] == i as u32);
            }
        }
        assert forall|i: int, j: int| 0 <= i < j < all.len() implies all[i] < all[j] by {
            if j < before.len() {
                assert(before[i] < before[j]);
            } else {
                assert(before[i] < front.len());
            }
        }
    }
}

} // verus!
