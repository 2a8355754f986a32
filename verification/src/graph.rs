//! The temporal typed property graph.
//!
//! Nothing is overwritten or deleted: a change of state ends the interval of
//! the previous version or edge and begins a new one. A fact is alive at `t`
//! where `observed_at <= t < retired_at`.

use crate::interner;
use crate::interner::Interner;
use crate::json;
use crate::json::{Json, JsonV};
use crate::model;
use crate::model::{Edge, EdgeId, GraphV, NodeId, NodeV, OpV, Ts, VersionV};
use crate::model::{EDGE_OVERHEAD, NODE_OVERHEAD, T_MAX, VERSION_OVERHEAD};
use crate::names;
use crate::names::NameIndex;
use crate::text;
use crate::text::byte_len;
use std::collections::hash_map::DefaultHasher;
use std::collections::HashMap;
use std::hash::Hasher;
use vstd::hash_map::StringHashMap;
use vstd::prelude::*;
use vstd::utf8;

verus! {

broadcast use vstd::std_specs::hash::group_hash_axioms;

/// One interval during which a node had certain properties.
#[derive(Debug)]
pub struct NodeVersion {
    pub observed_at: Ts,
    /// `T_MAX` while open.
    pub retired_at: Ts,
    /// Provenance label (0 = none).
    pub origin_id: u32,
    pub props_hash: u64,
    /// The properties as compact JSON text.
    pub props_json: String,
}

impl View for NodeVersion {
    type V = VersionV;

    open spec fn view(&self) -> VersionV {
        VersionV {
            observed_at: self.observed_at,
            retired_at: self.retired_at,
            origin_id: self.origin_id,
            props_hash: self.props_hash,
            props: self.props_json@,
        }
    }
}

impl NodeVersion {
    /// The properties as compact JSON text.
    pub fn props_json(&self) -> (res: &str)
        ensures
            res@ == self@.props,
    {
        self.props_json.as_str()
    }

    /// The properties as a document; `Null` where the text is none.
    pub fn props_value(&self) -> (res: Json)
        ensures
            res@ == (match json::json_parse(self@.props) {
                Ok(v) => v,
                Err(_) => JsonV::Null,
            }),
    {
        match json::parse_json(self.props_json.as_str()) {
            Ok(j) => j,
            Err(_) => Json::Null,
        }
    }
}

/// A node with its history.
#[derive(Debug)]
pub struct Node {
    pub name: String,
    pub type_id: u32,
    /// In the order in which they were opened.
    pub versions: Vec<NodeVersion>,
    /// Whether the node is known only because something refers to it.
    pub placeholder: bool,
}

impl View for Node {
    type V = NodeV;

    open spec fn view(&self) -> NodeV {
        NodeV {
            name: self.name@,
            type_id: self.type_id,
            versions: self.versions@.map_values(|v: NodeVersion| v@),
            placeholder: self.placeholder,
        }
    }
}

impl Node {
    /// The version alive at `t`, the last one where several are.
    pub fn version_at(&self, t: Ts) -> (res: Option<&NodeVersion>)
        ensures
            match res {
                Some(v) => model::version_at(self@.versions, t) == Some(v@),
                None => model::version_at(self@.versions, t) is None,
            },
    {
        let ghost vs = self@.versions;
        let mut i: usize = self.versions.len();
        assert(vs.take(i as int) =~= vs);
        while i > 0
            invariant
                i <= self.versions@.len(),
                vs == self@.versions,
                model::version_at(vs, t) == model::version_at(vs.take(i as int), t),
            decreases i,
        {
            let v = &self.versions[i - 1];
            assert(vs.take(i as int).last() == v@);
            assert(vs.take(i as int).drop_last() =~= vs.take(i - 1));
            if v.observed_at <= t && t < v.retired_at {
                return Some(v);
            }
            i -= 1;
        }
        None
    }

    /// Whether some version is alive at `t`.
    pub fn alive_at(&self, t: Ts) -> (res: bool)
        ensures
            res == self@.alive_at(t),
    {
        self.version_at(t).is_some()
    }
}

/// One mutation, addressed by names, so that it means the same in every
/// process.
#[derive(Debug)]
pub enum Op {
    ObserveNode {
        name: String,
        asset_type: String,
        props: Json,
        ts: Ts,
        /// Provenance label.
        origin: Option<String>,
    },
    ObservePlaceholder { name: String, inferred_type: String, ts: Ts, origin: Option<String> },
    RetireNode { name: String, ts: Ts },
    ObserveEdge { src: String, dst: String, kind: String, ts: Ts, origin: Option<String> },
    RetireEdge { src: String, dst: String, kind: String, ts: Ts },
}

pub open spec fn label_view(o: Option<String>) -> Option<Seq<char>> {
    match o {
        Some(s) => Some(s@),
        None => None,
    }
}

pub open spec fn str_view(o: Option<&str>) -> Option<Seq<char>> {
    match o {
        Some(s) => Some(s@),
        None => None,
    }
}

impl View for Op {
    type V = OpV;

    open spec fn view(&self) -> OpV {
        match *self {
            Op::ObserveNode { name, asset_type, props, ts, origin } => OpV::ObserveNode {
                name: name@,
                asset_type: asset_type@,
                props: props@,
                ts,
                origin: label_view(origin),
            },
            Op::ObservePlaceholder { name, inferred_type, ts, origin } => OpV::ObservePlaceholder {
                name: name@,
                inferred_type: inferred_type@,
                ts,
                origin: label_view(origin),
            },
            Op::RetireNode { name, ts } => OpV::RetireNode { name: name@, ts },
            Op::ObserveEdge { src, dst, kind, ts, origin } => OpV::ObserveEdge {
                src: src@,
                dst: dst@,
                kind: kind@,
                ts,
                origin: label_view(origin),
            },
            Op::RetireEdge { src, dst, kind, ts } => OpV::RetireEdge {
                src: src@,
                dst: dst@,
                kind: kind@,
                ts,
            },
        }
    }
}

/// A relation as one integer.
spec fn packed(k: (NodeId, NodeId, u32)) -> u128 {
    (k.0 * 0x1_0000_0000_0000_0000 + k.1 * 0x1_0000_0000 + k.2) as u128
}

proof fn lemma_packed(a: (NodeId, NodeId, u32), b: (NodeId, NodeId, u32))
    ensures
        packed(a) == packed(b) ==> a == b,
        packed(a) == a.0 * 0x1_0000_0000_0000_0000 + a.1 * 0x1_0000_0000 + a.2,
{
}

fn pack(src: NodeId, dst: NodeId, kind_id: u32) -> (res: u128)
    ensures
        res == packed((src, dst, kind_id)),
{
    src as u128 * 0x1_0000_0000_0000_0000 + dst as u128 * 0x1_0000_0000 + kind_id as u128
}

/// The hash by which properties are compared.
fn hash_str(s: &str) -> (res: u64)
    ensures
        res == model::text_hash(s@),
{
    let mut h = DefaultHasher::new();
    h.write(s.as_bytes());
    let end: [u8; 1] = [0xff];
    h.write(&end);
    assert(end@ =~= seq![0xffu8]);
    assert(h@ =~= seq![utf8::encode_utf8(s@), seq![0xffu8]]);
    h.finish()
}

/// The graph.
pub struct TemporalGraph {
    pub types: Interner,
    pub kinds: Interner,
    /// Provenance labels. The empty label comes first and stands for none.
    pub origins: Interner,
    nodes: Vec<Node>,
    name_to_id: StringHashMap<NodeId>,
    edges: Vec<Edge>,
    /// The record of each relation that is open.
    open_edges: HashMap<u128, EdgeId>,
    out_adj: Vec<Vec<EdgeId>>,
    in_adj: Vec<Vec<EdgeId>>,
    approx_bytes: usize,
    name_index: NameIndex,
}

impl View for TemporalGraph {
    type V = GraphV;

    closed spec fn view(&self) -> GraphV {
        GraphV {
            types: self.types@,
            kinds: self.kinds@,
            origins: self.origins@,
            nodes: self.nodes@.map_values(|n: Node| n@),
            ids: self.name_to_id@,
            edges: self.edges@,
            open: self.open_view(),
            bytes: self.approx_bytes as nat,
        }
    }
}

impl TemporalGraph {
    spec fn open_view(&self) -> Map<(NodeId, NodeId, u32), EdgeId> {
        Map::new(
            |k: (NodeId, NodeId, u32)| self.open_edges@.contains_key(packed(k)),
            |k: (NodeId, NodeId, u32)| self.open_edges@[packed(k)],
        )
    }

    /// The tables agree with the records.
    pub closed spec fn wf(&self) -> bool {
        &&& self@.wf()
        &&& self.types.wf()
        &&& self.kinds.wf()
        &&& self.origins.wf()
        &&& self.out_adj@.len() == self.nodes@.len()
        &&& self.in_adj@.len() == self.nodes@.len()
        &&& forall|i: int|
            0 <= i < self.nodes@.len() ==> (#[trigger] self.out_adj@[i])@ == self@.out_ids(i as u32)
        &&& forall|i: int|
            0 <= i < self.nodes@.len() ==> (#[trigger] self.in_adj@[i])@ == self@.in_ids(i as u32)
        &&& self.name_index@ == names::token_index(self@.names())
        &&& names::index_ordered(self.name_index@, self.nodes@.len() as int)
    }

    /// A well-formed graph is one whose content is well formed.
    pub proof fn lemma_wf(&self)
        requires
            self.wf(),
        ensures
            self@.wf(),
    {
    }

    pub fn new() -> (res: Self)
        ensures
            res.wf(),
            res@ == GraphV::empty(),
    {
        let res = TemporalGraph {
            types: Interner::new(),
            kinds: Interner::new(),
            origins: Interner::new(),
            nodes: Vec::new(),
            name_to_id: StringHashMap::new(),
            edges: Vec::new(),
            open_edges: HashMap::new(),
            out_adj: Vec::new(),
            in_adj: Vec::new(),
            approx_bytes: 0,
            name_index: NameIndex::new(),
        };
        proof {
            assert(res@.nodes =~= Seq::empty());
            assert(res@.open =~= Map::empty());
            assert(res@ =~= GraphV::empty());
            assert(res@.names() =~= Seq::empty());
        }
        res
    }

    /// Estimated heap bytes held by the graph, which never shrinks.
    pub fn approx_bytes(&self) -> (res: usize)
        ensures
            res == self@.bytes,
    {
        self.approx_bytes
    }

    pub fn node_count(&self) -> (res: usize)
        ensures
            res == self@.nodes.len(),
    {
        self.nodes.len()
    }

    pub fn edge_count(&self) -> (res: usize)
        ensures
            res == self@.edges.len(),
    {
        self.edges.len()
    }

    /// Whether ids are left for `n` more mutations.
    pub fn has_room(&self, n: u32) -> (res: bool)
        ensures
            res == self@.room(n as nat),
    {
        let m: u64 = n as u64;
        let max: u64 = u32::MAX as u64;
        self.nodes.len() as u128 + 2 * m as u128 <= max as u128 && self.edges.len() as u128
            + m as u128 <= max as u128 && self.types.len() as u128 + 2 * m as u128 <= max as u128
            && self.kinds.len() as u128 + m as u128 <= max as u128 && self.origins.len() as u128
            + 2 * m as u128 <= max as u128
    }
}

impl TemporalGraph {
    /// The node called `name`.
    pub fn id_of(&self, name: &str) -> (res: Option<NodeId>)
        ensures
            res == self@.id_of(name@),
    {
        match self.name_to_id.get(name) {
            Some(id) => Some(*id),
            None => None,
        }
    }

    pub fn node(&self, id: NodeId) -> (res: &Node)
        requires
            id < self@.nodes.len(),
        ensures
            res@ == self@.nodes[id as int],
    {
        &self.nodes[id as usize]
    }

    pub(crate) fn node_at(&self, i: usize) -> (res: &Node)
        requires
            i < self@.nodes.len(),
        ensures
            res@ == self@.nodes[i as int],
    {
        &self.nodes[i]
    }

    pub(crate) fn find_tokens(&self, tokens: &Vec<String>, limit: usize) -> (res: Vec<NodeId>)
        requires
            self.wf(),
        ensures
            names::smallest(
                res@,
                names::token_hits(
                    names::token_index(self@.names()),
                    text::views(tokens@),
                    names::hit_cap(limit),
                ),
                limit as nat,
            ),
            forall|i: int| 0 <= i < res@.len() ==> (#[trigger] res@[i]) < self@.nodes.len(),
    {
        let res = self.name_index.find(tokens, limit);
        proof {
            names::lemma_hits_below(
                self.name_index@,
                text::views(tokens@),
                names::hit_cap(limit),
                self.nodes@.len() as int,
            );
            assert forall|i: int| 0 <= i < res@.len() implies (#[trigger] res@[i])
                < self@.nodes.len() by {
                assert(res@.contains(res@[i]));
            }
        }
        res
    }

    pub(crate) fn edge_at(&self, i: usize) -> (res: &Edge)
        requires
            i < self@.edges.len(),
        ensures
            *res == self@.edges[i as int],
    {
        &self.edges[i]
    }

    /// Records of edges that leave a node, closed ones too.
    pub fn out_edge_ids(&self, id: NodeId) -> (res: &[EdgeId])
        requires
            self.wf(),
            id < self@.nodes.len(),
        ensures
            res@ == self@.out_ids(id),
    {
        assert(self.out_adj@[id as int]@ == self@.out_ids(id));
        self.out_adj[id as usize].as_slice()
    }

    /// Records of edges that arrive at a node, closed ones too.
    pub fn in_edge_ids(&self, id: NodeId) -> (res: &[EdgeId])
        requires
            self.wf(),
            id < self@.nodes.len(),
        ensures
            res@ == self@.in_ids(id),
    {
        assert(self.in_adj@[id as int]@ == self@.in_ids(id));
        self.in_adj[id as usize].as_slice()
    }

    pub fn edge(&self, eid: EdgeId) -> (res: &Edge)
        requires
            eid < self@.edges.len(),
        ensures
            *res == self@.edges[eid as int],
    {
        &self.edges[eid as usize]
    }

    pub fn node_name(&self, id: NodeId) -> (res: &str)
        requires
            id < self@.nodes.len(),
        ensures
            res@ == self@.nodes[id as int].name,
    {
        self.nodes[id as usize].name.as_str()
    }

    pub fn node_type(&self, id: NodeId) -> (res: &str)
        requires
            self.wf(),
            id < self@.nodes.len(),
        ensures
            res@ == self@.type_of(id),
    {
        assert(self@.nodes[id as int].type_id < self@.types.len());
        self.types.resolve(self.nodes[id as usize].type_id)
    }

    /// The string of an edge kind.
    pub fn kind_str(&self, kind_id: u32) -> (res: &str)
        requires
            kind_id < self@.kinds.len(),
        ensures
            res@ == self@.kinds[kind_id as int],
    {
        self.kinds.resolve(kind_id)
    }

    /// The string of a provenance label.
    pub fn origin_str(&self, origin_id: u32) -> (res: &str)
        requires
            origin_id < self@.origins.len(),
        ensures
            res@ == self@.origins[origin_id as int],
    {
        self.origins.resolve(origin_id)
    }

    /// Provenance label of an edge record, empty where there is none.
    pub fn edge_origin(&self, eid: EdgeId) -> (res: &str)
        requires
            self.wf(),
            eid < self@.edges.len(),
        ensures
            res@ == self@.origins[self@.edges[eid as int].origin_id as int],
    {
        let id = self.edges[eid as usize].origin_id;
        assert(self@.edges[eid as int].origin_id < self@.origins.len());
        self.origins.resolve(id)
    }

    /// Provenance label of a node's version alive at `t`, empty where there
    /// is none.
    pub fn node_origin_at(&self, id: NodeId, t: Ts) -> (res: &str)
        requires
            self.wf(),
            id < self@.nodes.len(),
        ensures
            res@ == self@.node_origin_at(id, t),
    {
        proof {
            reveal_strlit("");
            assert(""@ =~= Seq::empty());
            model::lemma_version_at_is_version(self@.nodes[id as int].versions, t);
        }
        match self.nodes[id as usize].version_at(t) {
            Some(v) => if v.origin_id != 0 {
                assert(v@.origin_id < self@.origins.len()) by {
                    let vs = self@.nodes[id as int].versions;
                    let k = choose|k: int| 0 <= k < vs.len() && vs[k] == v@;
                    assert(self@.nodes[id as int].versions[k].origin_id < self@.origins.len());
                }
                self.origins.resolve(v.origin_id)
            } else {
                ""
            },
            None => "",
        }
    }

    /// Finds or makes the node called `name`. A placeholder that is now
    /// observed for real takes the type given.
    fn ensure_node(&mut self, name: &str, type_id: u32, placeholder: bool) -> (id: NodeId)
        requires
            old(self).wf(),
            type_id < old(self)@.types.len(),
            old(self)@.nodes.len() < u32::MAX,
        ensures
            final(self).wf(),
            final(self)@ == old(self)@.with_node(name@, type_id, placeholder),
            final(self)@.ids.contains_key(name@),
            id == final(self)@.ids[name@],
            id < final(self)@.nodes.len(),
    {
        let ghost before = self@;
        if let Some(id) = self.id_of(name) {
            let i: usize = id as usize;
            if self.nodes[i].placeholder && !placeholder {
                self.nodes[i].placeholder = false;
                self.nodes[i].type_id = type_id;
                proof {
                    let n = before.nodes[i as int];
                    assert(self.nodes@[i as int]@.versions =~= n.versions);
                    assert(self@.nodes =~= before.nodes.update(
                        i as int,
                        NodeV { placeholder: false, type_id, ..n },
                    ));
                    assert(self@.names() =~= before.names());
                    assert(self@ =~= before.with_node(name@, type_id, placeholder));
                    assert(self@.wf());
                }
            }
            return id;
        }
        let id: NodeId = self.nodes.len() as NodeId;
        let bytes = self.approx_bytes.saturating_add(NODE_OVERHEAD).saturating_add(
            byte_len(name),
        ).saturating_add(byte_len(name));
        self.approx_bytes = self.name_index.post_name(name, id, bytes);
        let versions: Vec<NodeVersion> = Vec::new();
        let n = Node { name: name.to_owned(), type_id, versions, placeholder };
        self.nodes.push(n);
        self.name_to_id.insert(name.to_owned(), id);
        self.out_adj.push(Vec::new());
        self.in_adj.push(Vec::new());
        proof {
            assert(n@.versions =~= Seq::empty());
            assert(self@.nodes =~= before.nodes.push(n@));
            assert(self@ =~= before.with_node(name@, type_id, placeholder));
            assert(self@.names() =~= before.names().push(name@));
            assert(self@.names().drop_last() =~= before.names());
            assert forall|i: int, j: int|
                0 <= i < self@.nodes.len() && 0 <= j < self@.nodes[i].versions.len() implies (
            #[trigger] self@.nodes[i].versions[j]).origin_id < self@.origins.len() by {
                assert(i < before.nodes.len());
                assert(before.nodes[i].versions[j].origin_id < before.origins.len());
            }
            assert forall|i: int| 0 <= i < self@.nodes.len() implies self@.ids.contains_key(
                (#[trigger] self@.nodes[i]).name,
            ) && self@.ids[self@.nodes[i].name] == i by {
                if i < before.nodes.len() {
                    assert(self@.nodes[i] == before.nodes[i]);
                    assert(before.ids.contains_key(before.nodes[i].name));
                }
            }
            assert forall|i: int| 0 <= i < self@.nodes.len() implies (
            #[trigger] self@.nodes[i]).type_id < self@.types.len() by {
                if i < before.nodes.len() {
                    assert(before.nodes[i].type_id < before.types.len());
                }
            }
            assert(self@.wf());
            model::lemma_edge_ids(before.edges, model::leaves(id));
            model::lemma_edge_ids(before.edges, model::arrives(id));
            assert(self@.out_ids(id) =~= Seq::empty()) by {
                if self@.out_ids(id).len() > 0 {
                    let e = before.edges[self@.out_ids(id)[0] as int];
                    assert(e.src == id);
                }
            }
            assert(self@.in_ids(id) =~= Seq::empty()) by {
                if self@.in_ids(id).len() > 0 {
                    let e = before.edges[self@.in_ids(id)[0] as int];
                    assert(e.dst == id);
                }
            }
            assert forall|i: int| 0 <= i < self.nodes@.len() implies (#[trigger] self.out_adj@[i])@
                == self@.out_ids(i as u32) by {
                if i < before.nodes.len() {
                    assert(before.out_ids(i as u32) == self@.out_ids(i as u32));
                } else {
                    assert(self.out_adj@[i]@ =~= Seq::empty());
                }
            }
            assert forall|i: int| 0 <= i < self.nodes@.len() implies (#[trigger] self.in_adj@[i])@
                == self@.in_ids(i as u32) by {
                if i < before.nodes.len() {
                    assert(before.in_ids(i as u32) == self@.in_ids(i as u32));
                } else {
                    assert(self.in_adj@[i]@ =~= Seq::empty());
                }
            }
        }
        id
    }
}

impl TemporalGraph {
    /// The number of a provenance label. The empty label is numbered first,
    /// so that 0 stands for none.
    fn intern_origin(&mut self, origin: Option<&str>) -> (id: u32)
        requires
            old(self).wf(),
            old(self)@.origins.len() + 2 <= u32::MAX,
        ensures
            final(self).wf(),
            final(self)@ == (GraphV {
                origins: model::origins_with(old(self)@.origins, str_view(origin)),
                ..old(self)@
            }),
            id == model::origin_number(final(self)@.origins, str_view(origin)),
            id < final(self)@.origins.len(),
    {
        let ghost before = self@;
        proof {
            reveal_strlit("");
            assert(""@ =~= Seq::empty());
            self.origins.lemma_wf();
        }
        if self.origins.get("").is_none() {
            assert(before.origins.len() > 0 ==> before.origins.contains(before.origins[0]));
            self.origins.intern("");
        }
        let ghost base = self.origins@;
        assert(base[0] == Seq::<char>::empty());
        let id: u32 = match origin {
            Some(o) => if !o.is_empty() {
                self.origins.intern(o)
            } else {
                0
            },
            None => 0,
        };
        proof {
            self.origins.lemma_wf();
            assert(self.origins@ =~= model::origins_with(before.origins, str_view(origin)));
            self.lemma_tables_grow(before, *old(self));
        }
        id
    }

    /// Growing a table leaves the rest of a well-formed graph well formed.
    proof fn lemma_tables_grow(self, before: GraphV, old_self: Self)
        requires
            old_self.wf(),
            before == old_self@,
            self.types.wf(),
            self.kinds.wf(),
            self.origins.wf(),
            old_self.types@.len() <= self.types@.len(),
            old_self.kinds@.len() <= self.kinds@.len(),
            old_self.origins@.len() <= self.origins@.len(),
            self.origins@.len() > 0 ==> self.origins@[0] == Seq::<char>::empty(),
            self == (TemporalGraph {
                types: self.types,
                kinds: self.kinds,
                origins: self.origins,
                ..old_self
            }),
        ensures
            self.wf(),
            self@ == (GraphV {
                types: self.types@,
                kinds: self.kinds@,
                origins: self.origins@,
                ..before
            }),
    {
        self.types.lemma_wf();
        self.kinds.lemma_wf();
        self.origins.lemma_wf();
        assert(self@.nodes =~= before.nodes);
        assert(self@.open =~= before.open);
        assert(self@.names() =~= before.names());
        assert forall|i: int, j: int|
            0 <= i < self@.nodes.len() && 0 <= j < self@.nodes[i].versions.len() implies (
        #[trigger] self@.nodes[i].versions[j]).origin_id < self@.origins.len() by {
            assert(before.nodes[i].versions[j].origin_id < before.origins.len());
        }
        assert(self@.wf());
        assert forall|i: int| 0 <= i < self.nodes@.len() implies (#[trigger] self.out_adj@[i])@
            == self@.out_ids(i as u32) by {
            assert(old_self.out_adj@[i]@ == before.out_ids(i as u32));
        }
        assert forall|i: int| 0 <= i < self.nodes@.len() implies (#[trigger] self.in_adj@[i])@
            == self@.in_ids(i as u32) by {
            assert(old_self.in_adj@[i]@ == before.in_ids(i as u32));
        }
    }

    /// The number of a node type.
    fn intern_type(&mut self, ty: &str) -> (id: u32)
        requires
            old(self).wf(),
            old(self)@.types.len() <= u32::MAX,
        ensures
            final(self).wf(),
            final(self)@ == (GraphV {
                types: interner::interned(old(self)@.types, ty@),
                ..old(self)@
            }),
            id == interner::number_of(final(self)@.types, ty@),
            id < final(self)@.types.len(),
    {
        let ghost before = self@;
        let id = self.types.intern(ty);
        proof {
            self.lemma_tables_grow(before, *old(self));
        }
        id
    }

    /// The number of an edge kind.
    fn intern_kind(&mut self, kind: &str) -> (id: u32)
        requires
            old(self).wf(),
            old(self)@.kinds.len() <= u32::MAX,
        ensures
            final(self).wf(),
            final(self)@ == (GraphV {
                kinds: interner::interned(old(self)@.kinds, kind@),
                ..old(self)@
            }),
            id == interner::number_of(final(self)@.kinds, kind@),
            id < final(self)@.kinds.len(),
    {
        let ghost before = self@;
        let id = self.kinds.intern(kind);
        proof {
            self.lemma_tables_grow(before, *old(self));
        }
        id
    }

    /// Whether the last version of a node is still open.
    fn is_open(&self, id: NodeId) -> (res: bool)
        requires
            id < self@.nodes.len(),
        ensures
            res == (model::open_version(self@.nodes[id as int].versions) is Some),
    {
        let n = &self.nodes[id as usize];
        let k: usize = n.versions.len();
        assert(n@ == self@.nodes[id as int]);
        assert(k > 0 ==> n@.versions.last() == n.versions@[k - 1]@);
        k > 0 && n.versions[k - 1].retired_at == T_MAX
    }

    /// Changing the history of one node leaves the rest as it was.
    proof fn lemma_versions_change(self, before: GraphV, old_self: Self, id: NodeId)
        requires
            old_self.wf(),
            before == old_self@,
            id < before.nodes.len(),
            self.nodes@.len() == old_self.nodes@.len(),
            self == (TemporalGraph {
                nodes: self.nodes,
                approx_bytes: self.approx_bytes,
                ..old_self
            }),
            forall|i: int|
                0 <= i < self.nodes@.len() && i != id ==> self.nodes@[i] == old_self.nodes@[i],
            self.nodes@[id as int]@ == (NodeV {
                versions: self.nodes@[id as int]@.versions,
                ..before.nodes[id as int]
            }),
            forall|j: int|
                0 <= j < self.nodes@[id as int]@.versions.len() ==> (
                #[trigger] self.nodes@[id as int]@.versions[j]).origin_id < before.origins.len(),
        ensures
            self.wf(),
            self@ == (GraphV {
                nodes: before.nodes.update(id as int, self.nodes@[id as int]@),
                bytes: self.approx_bytes as nat,
                ..before
            }),
    {
        assert(self@.nodes =~= before.nodes.update(id as int, self.nodes@[id as int]@));
        assert(self@.open =~= before.open);
        assert(self@.names() =~= before.names());
        assert forall|i: int, j: int|
            0 <= i < self@.nodes.len() && 0 <= j < self@.nodes[i].versions.len() implies (
        #[trigger] self@.nodes[i].versions[j]).origin_id < self@.origins.len() by {
            if i != id {
                assert(before.nodes[i].versions[j].origin_id < before.origins.len());
            }
        }
        assert(self@.wf());
        assert forall|i: int| 0 <= i < self.nodes@.len() implies (#[trigger] self.out_adj@[i])@
            == self@.out_ids(i as u32) by {
            assert(old_self.out_adj@[i]@ == before.out_ids(i as u32));
        }
        assert forall|i: int| 0 <= i < self.nodes@.len() implies (#[trigger] self.in_adj@[i])@
            == self@.in_ids(i as u32) by {
            assert(old_self.in_adj@[i]@ == before.in_ids(i as u32));
        }
    }

    /// Ends the open version of a node, if any, at `ts`.
    fn close_version(&mut self, id: NodeId, ts: Ts)
        requires
            old(self).wf(),
            id < old(self)@.nodes.len(),
        ensures
            final(self).wf(),
            final(self)@ == (GraphV {
                nodes: old(self)@.nodes.update(
                    id as int,
                    NodeV {
                        versions: model::closed_at(old(self)@.nodes[id as int].versions, ts),
                        ..old(self)@.nodes[id as int]
                    },
                ),
                ..old(self)@
            }),
    {
        let ghost before = self@;
        let i: usize = id as usize;
        if self.is_open(id) {
            let k: usize = self.nodes[i].versions.len();
            let ghost vs = before.nodes[i as int].versions;
            self.nodes[i].versions[k - 1].retired_at = ts;
            proof {
                assert(self.nodes@[i as int]@.versions =~= model::closed_at(vs, ts));
                assert forall|j: int| 0 <= j < self.nodes@[i as int]@.versions.len() implies (
                #[trigger] self.nodes@[i as int]@.versions[j]).origin_id < before.origins.len() by {
                    assert(before.nodes[i as int].versions[j].origin_id < before.origins.len());
                }
                self.lemma_versions_change(before, *old(self), id);
            }
        } else {
            assert(before.nodes.update(id as int, before.nodes[id as int]) =~= before.nodes);
        }
    }

    /// Appends a version to the history of a node, whose open version, if
    /// any, ends where it begins.
    fn push_version(&mut self, id: NodeId, v: NodeVersion)
        requires
            old(self).wf(),
            id < old(self)@.nodes.len(),
            v.origin_id < old(self)@.origins.len(),
        ensures
            final(self).wf(),
            final(self)@ == old(self)@.with_version(id, v@),
    {
        let ghost start = self@;
        self.close_version(id, v.observed_at);
        let ghost before = self@;
        let ghost mid = *self;
        let i: usize = id as usize;
        let len: usize = byte_len(v.props_json.as_str());
        self.approx_bytes = self.approx_bytes.saturating_add(VERSION_OVERHEAD).saturating_add(len);
        self.nodes[i].versions.push(v);
        proof {
            let vs = before.nodes[i as int].versions;
            assert(self.nodes@[i as int]@.versions =~= vs.push(v@));
            assert forall|j: int| 0 <= j < self.nodes@[i as int]@.versions.len() implies (
            #[trigger] self.nodes@[i as int]@.versions[j]).origin_id < before.origins.len() by {
                if j < vs.len() {
                    assert(before.nodes[i as int].versions[j].origin_id < before.origins.len());
                }
            }
            self.lemma_versions_change(before, mid, id);
            assert(self@.nodes =~= start.with_version(id, v@).nodes);
        }
    }

    /// Records an observation of a node's properties at `ts`. Nothing is
    /// added where the open version has properties of the same hash; the order in
    /// which the members of objects stand makes no difference.
    pub fn observe_node(&mut self, name: &str, asset_type: &str, props: Json, ts: Ts) -> (id: NodeId)
        requires
            old(self).wf(),
            old(self)@.room(1),
        ensures
            final(self).wf(),
            final(self)@ == old(self)@.observe_node(
                name@,
                asset_type@,
                json::canonical_text(props@),
                ts,
                None,
            ),
            final(self)@.id_of(name@) == Some(id),
    {
        self.observe_node_from(name, asset_type, &props, ts, None)
    }

    /// `observe_node` with a provenance label.
    pub fn observe_node_from(
        &mut self,
        name: &str,
        asset_type: &str,
        props: &Json,
        ts: Ts,
        origin: Option<&str>,
    ) -> (id: NodeId)
        requires
            old(self).wf(),
            old(self)@.room(1),
        ensures
            final(self).wf(),
            final(self)@ == old(self)@.observe_node(
                name@,
                asset_type@,
                json::canonical_text(props@),
                ts,
                str_view(origin),
            ),
            final(self)@.id_of(name@) == Some(id),
    {
        let ghost start = self@;
        let origin_id = self.intern_origin(origin);
        let type_id = self.intern_type(asset_type);
        assert(self@ == start.with_labels(asset_type@, str_view(origin)));
        let id = self.ensure_node(name, type_id, false);
        let ghost mid = self@;
        let s = props.sorted().text();
        let h = hash_str(s.as_str());
        let i: usize = id as usize;
        if self.is_open(id) {
            let k: usize = self.nodes[i].versions.len();
            assert(self.nodes@[i as int]@ == mid.nodes[i as int]);
            assert(mid.nodes[i as int].versions.last() == self.nodes@[i as int].versions@[k - 1]@);
            if self.nodes[i].versions[k - 1].props_hash == h {
                return id;
            }
        }
        let v = NodeVersion {
            observed_at: ts,
            retired_at: T_MAX,
            origin_id,
            props_hash: h,
            props_json: s,
        };
        self.push_version(id, v);
        id
    }

    /// Records that something refers to `name`, which has not been observed
    /// itself. It is alive from `ts` on, so that traversals can cross it.
    pub fn observe_placeholder(&mut self, name: &str, inferred_type: &str, ts: Ts) -> (id: NodeId)
        requires
            old(self).wf(),
            old(self)@.room(1),
        ensures
            final(self).wf(),
            final(self)@ == old(self)@.observe_placeholder(name@, inferred_type@, ts, None),
            final(self)@.id_of(name@) == Some(id),
    {
        self.observe_placeholder_from(name, inferred_type, ts, None)
    }

    /// `observe_placeholder` with a provenance label.
    pub fn observe_placeholder_from(
        &mut self,
        name: &str,
        inferred_type: &str,
        ts: Ts,
        origin: Option<&str>,
    ) -> (id: NodeId)
        requires
            old(self).wf(),
            old(self)@.nodes.len() < u32::MAX,
            old(self)@.types.len() <= u32::MAX,
            old(self)@.origins.len() + 2 <= u32::MAX,
        ensures
            final(self).wf(),
            final(self)@ == old(self)@.observe_placeholder(
                name@,
                inferred_type@,
                ts,
                str_view(origin),
            ),
            final(self)@.id_of(name@) == Some(id),
    {
        let ghost start = self@;
        let origin_id = self.intern_origin(origin);
        let type_id = self.intern_type(inferred_type);
        assert(self@ == start.with_labels(inferred_type@, str_view(origin)));
        let id = self.ensure_node(name, type_id, true);
        if !self.is_open(id) {
            proof {
                reveal_strlit("null");
                assert("null"@ =~= seq!['n', 'u', 'l', 'l']);
            }
            let v = NodeVersion {
                observed_at: ts,
                retired_at: T_MAX,
                origin_id,
                props_hash: 0,
                props_json: "null".to_owned(),
            };
            self.push_version(id, v);
        }
        id
    }
}

impl TemporalGraph {
    /// Ends an edge record at `ts`.
    fn close_edge(&mut self, eid: EdgeId, ts: Ts)
        requires
            old(self).wf(),
            eid < old(self)@.edges.len(),
        ensures
            final(self).wf(),
            final(self)@ == old(self)@.close_edge(eid, ts),
    {
        let ghost before = self@;
        let i: usize = eid as usize;
        self.edges[i].valid_to = ts;
        let e = self.edges[i];
        let key: u128 = pack(e.src, e.dst, e.kind_id);
        self.open_edges.remove(&key);
        proof {
            assert forall|k: (NodeId, NodeId, u32)| packed(k) == key implies k == e.key() by {
                lemma_packed(k, e.key());
            }
            assert(self@.nodes =~= before.nodes);
            assert(self@.open =~= before.open.remove(e.key()));
            assert(self@ =~= before.close_edge(eid, ts));
            assert(self@.names() =~= before.names());
            assert forall|j: int, k: int|
                0 <= j < self@.nodes.len() && 0 <= k < self@.nodes[j].versions.len() implies (
            #[trigger] self@.nodes[j].versions[k]).origin_id < self@.origins.len() by {
                assert(before.nodes[j].versions[k].origin_id < before.origins.len());
            }
            assert(self@.wf());
            self.lemma_adjacency_kept(before, *old(self));
        }
    }

    /// Adjacency stays right where edges change other than in their ends.
    proof fn lemma_adjacency_kept(self, before: GraphV, old_self: Self)
        requires
            old_self.wf(),
            before == old_self@,
            self.out_adj == old_self.out_adj,
            self.in_adj == old_self.in_adj,
            self@.nodes == before.nodes,
            self@.edges.len() == before.edges.len(),
            forall|i: int|
                0 <= i < before.edges.len() ==> (#[trigger] self@.edges[i]).src == before.edges[i].src
                    && self@.edges[i].dst == before.edges[i].dst,
        ensures
            forall|i: int|
                0 <= i < self.nodes@.len() ==> (#[trigger] self.out_adj@[i])@ == self@.out_ids(
                    i as u32,
                ),
            forall|i: int|
                0 <= i < self.nodes@.len() ==> (#[trigger] self.in_adj@[i])@ == self@.in_ids(
                    i as u32,
                ),
    {
        assert(self.nodes@.len() == before.nodes.len());
        assert forall|i: int| 0 <= i < self.nodes@.len() implies (#[trigger] self.out_adj@[i])@
            == self@.out_ids(i as u32) by {
            assert(old_self.out_adj@[i]@ == before.out_ids(i as u32));
            model::lemma_edge_ids_same(before.edges, self@.edges, model::leaves(i as u32));
        }
        assert forall|i: int| 0 <= i < self.nodes@.len() implies (#[trigger] self.in_adj@[i])@
            == self@.in_ids(i as u32) by {
            assert(old_self.in_adj@[i]@ == before.in_ids(i as u32));
            model::lemma_edge_ids_same(before.edges, self@.edges, model::arrives(i as u32));
        }
    }

    /// Ends those of `eids` that are open at `ts`.
    fn close_edges(&mut self, eids: &Vec<EdgeId>, ts: Ts)
        requires
            old(self).wf(),
            forall|k: int| 0 <= k < eids@.len() ==> (#[trigger] eids@[k]) < old(self)@.edges.len(),
        ensures
            final(self).wf(),
            final(self)@ == old(self)@.close_edges(eids@, ts),
    {
        let ghost start = self@;
        let mut i: usize = 0;
        assert(eids@.take(0) =~= Seq::empty());
        while i < eids.len()
            invariant
                i <= eids@.len(),
                self.wf(),
                self@ == start.close_edges(eids@.take(i as int), ts),
                self@.edges.len() == start.edges.len(),
                forall|k: int| 0 <= k < eids@.len() ==> (#[trigger] eids@[k]) < start.edges.len(),
            decreases eids@.len() - i,
        {
            proof {
                assert(eids@.take(i + 1).drop_last() =~= eids@.take(i as int));
                assert(eids@.take(i + 1).last() == eids@[i as int]);
            }
            let eid = eids[i];
            if self.edges[eid as usize].valid_to == T_MAX {
                self.close_edge(eid, ts);
            }
            i += 1;
        }
        assert(eids@.take(eids@.len() as int) =~= eids@);
    }

    /// Ends the node's open version and all its open edges at `ts`.
    pub fn retire_node(&mut self, name: &str, ts: Ts)
        requires
            old(self).wf(),
        ensures
            final(self).wf(),
            final(self)@ == old(self)@.retire_node(name@, ts),
    {
        let ghost start = self@;
        if let Some(id) = self.id_of(name) {
            let i: usize = id as usize;
            let mut touching: Vec<EdgeId> = self.out_adj[i].clone();
            let mut arriving: Vec<EdgeId> = self.in_adj[i].clone();
            proof {
                assert(touching@ =~= self.out_adj@[i as int]@);
                assert(arriving@ =~= self.in_adj@[i as int]@);
            }
            touching.append(&mut arriving);
            proof {
                assert(touching@ =~= start.out_ids(id) + start.in_ids(id));
                model::lemma_edge_ids(start.edges, model::leaves(id));
                model::lemma_edge_ids(start.edges, model::arrives(id));
                let a = start.out_ids(id);
                assert forall|k: int| 0 <= k < touching@.len() implies (#[trigger] touching@[k])
                    < start.edges.len() by {
                    if k < a.len() {
                        assert(touching@[k] == start.out_ids(id)[k]);
                    } else {
                        assert(touching@[k] == start.in_ids(id)[k - a.len()]);
                    }
                }
            }
            self.close_version(id, ts);
            self.close_edges(&touching, ts);
        }
    }

    /// Records that an edge exists at `ts`. Nothing is added while the edge is
    /// open, and the label of its first observation stays.
    pub fn observe_edge(&mut self, src: NodeId, dst: NodeId, kind: &str, ts: Ts) -> (eid: EdgeId)
        requires
            old(self).wf(),
            old(self)@.room(1),
            src < old(self)@.nodes.len(),
            dst < old(self)@.nodes.len(),
        ensures
            final(self).wf(),
            final(self)@ == old(self)@.observe_edge(src, dst, kind@, ts, None),
            eid == final(self)@.edge_id(src, dst, kind@),
    {
        self.observe_edge_from(src, dst, kind, ts, None)
    }

    /// `observe_edge` with a provenance label.
    pub fn observe_edge_from(
        &mut self,
        src: NodeId,
        dst: NodeId,
        kind: &str,
        ts: Ts,
        origin: Option<&str>,
    ) -> (eid: EdgeId)
        requires
            old(self).wf(),
            old(self)@.kinds.len() <= u32::MAX,
            old(self)@.origins.len() + 2 <= u32::MAX,
            old(self)@.edges.len() < u32::MAX,
            src < old(self)@.nodes.len(),
            dst < old(self)@.nodes.len(),
        ensures
            final(self).wf(),
            final(self)@ == old(self)@.observe_edge(src, dst, kind@, ts, str_view(origin)),
            eid == final(self)@.edge_id(src, dst, kind@),
    {
        let ghost start = self@;
        let origin_id = self.intern_origin(origin);
        let kind_id = self.intern_kind(kind);
        let ghost mid = self@;
        let ghost mid_self = *self;
        let key: u128 = pack(src, dst, kind_id);
        let ghost k = (src, dst, kind_id);
        if let Some(eid) = self.open_edges.get(&key) {
            assert(mid.open.contains_key(k));
            return *eid;
        }
        assert(!mid.open.contains_key(k));
        let eid: EdgeId = self.edges.len() as EdgeId;
        self.approx_bytes = self.approx_bytes.saturating_add(EDGE_OVERHEAD);
        let e = Edge { src, dst, kind_id, origin_id, valid_from: ts, valid_to: T_MAX };
        self.edges.push(e);
        self.open_edges.insert(key, eid);
        self.out_adj[src as usize].push(eid);
        self.in_adj[dst as usize].push(eid);
        proof {
            assert forall|q: (NodeId, NodeId, u32)| packed(q) == key implies q == k by {
                lemma_packed(q, k);
            }
            assert(self@.nodes =~= mid.nodes);
            assert(self@.open =~= mid.open.insert(k, eid));
            assert(self@ =~= start.observe_edge(src, dst, kind@, ts, str_view(origin)));
            assert(self@.names() =~= mid.names());
            assert forall|j: int, v: int|
                0 <= j < self@.nodes.len() && 0 <= v < self@.nodes[j].versions.len() implies (
            #[trigger] self@.nodes[j].versions[v]).origin_id < self@.origins.len() by {
                assert(mid.nodes[j].versions[v].origin_id < mid.origins.len());
            }
            assert(self@.wf());
            assert(self@.edges.drop_last() =~= mid.edges);
            assert forall|i: int| 0 <= i < self.nodes@.len() implies (#[trigger] self.out_adj@[i])@
                == self@.out_ids(i as u32) by {
                assert(mid_self.out_adj@[i]@ == mid.out_ids(i as u32));
            }
            assert forall|i: int| 0 <= i < self.nodes@.len() implies (#[trigger] self.in_adj@[i])@
                == self@.in_ids(i as u32) by {
                assert(mid_self.in_adj@[i]@ == mid.in_ids(i as u32));
            }
        }
        eid
    }

    /// Ends an edge at `ts`, where it is open.
    pub fn retire_edge(&mut self, src: NodeId, dst: NodeId, kind: &str, ts: Ts)
        requires
            old(self).wf(),
        ensures
            final(self).wf(),
            final(self)@ == old(self)@.retire_edge(src, dst, kind@, ts),
    {
        if let Some(kind_id) = self.kinds.get(kind) {
            let key: u128 = pack(src, dst, kind_id);
            let found: Option<EdgeId> = match self.open_edges.get(&key) {
                Some(eid) => Some(*eid),
                None => None,
            };
            if let Some(eid) = found {
                assert(self@.open.contains_key((src, dst, kind_id)));
                self.close_edge(eid, ts);
            }
        }
    }

    /// Finds the node called `name`, or makes it a placeholder of unknown type.
    fn placeholder_if_absent(&mut self, name: &str, ts: Ts) -> (id: NodeId)
        requires
            old(self).wf(),
            old(self)@.nodes.len() < u32::MAX,
            old(self)@.types.len() <= u32::MAX,
            old(self)@.origins.len() + 2 <= u32::MAX,
        ensures
            final(self).wf(),
            final(self)@ == old(self)@.with_endpoint(name@, ts),
            final(self)@.id_of(name@) == Some(id),
    {
        match self.id_of(name) {
            Some(id) => id,
            None => self.observe_placeholder_from(name, "unknown/unknown", ts, None),
        }
    }

    /// Applies one mutation. Edges may arrive before their ends are observed:
    /// the ends are then made placeholders.
    pub fn apply(&mut self, op: &Op)
        requires
            old(self).wf(),
            old(self)@.accepts(op@),
        ensures
            final(self).wf(),
            final(self)@ == old(self)@.apply(op@),
    {
        match op {
            Op::ObserveNode { name, asset_type, props, ts, origin } => {
                self.observe_node_from(
                    name.as_str(),
                    asset_type.as_str(),
                    props,
                    *ts,
                    label(origin),
                );
            },
            Op::ObservePlaceholder { name, inferred_type, ts, origin } => {
                self.observe_placeholder_from(
                    name.as_str(),
                    inferred_type.as_str(),
                    *ts,
                    label(origin),
                );
            },
            Op::RetireNode { name, ts } => self.retire_node(name.as_str(), *ts),
            Op::ObserveEdge { src, dst, kind, ts, origin } => {
                let s = self.placeholder_if_absent(src.as_str(), *ts);
                let ghost mid = self@;
                let d = self.placeholder_if_absent(dst.as_str(), *ts);
                proof {
                    mid.lemma_endpoint_keeps(dst@, *ts, src@);
                }
                self.observe_edge_from(s, d, kind.as_str(), *ts, label(origin));
            },
            Op::RetireEdge { src, dst, kind, ts } => {
                if let Some(s) = self.id_of(src.as_str()) {
                    if let Some(d) = self.id_of(dst.as_str()) {
                        self.retire_edge(s, d, kind.as_str(), *ts);
                    }
                }
            },
        }
    }
}

impl TemporalGraph {
    /// Whether ids are left for the mutation.
    pub fn can_apply(&self, op: &Op) -> (res: bool)
        ensures
            res == self@.accepts(op@),
    {
        match op {
            Op::RetireNode { .. } => true,
            Op::RetireEdge { .. } => true,
            _ => self.has_room(1),
        }
    }
}

/// A label as text.
pub fn label(o: &Option<String>) -> (res: Option<&str>)
    ensures
        str_view(res) == label_view(*o),
{
    match o {
        Some(s) => Some(s.as_str()),
        None => None,
    }
}

} // verus!
