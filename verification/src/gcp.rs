//! Cloud asset inventory records.
//!
//! ```json
//! { "name": "//compute.googleapis.com/projects/p/zones/z/instances/i",
//!   "assetType": "compute.googleapis.com/Instance",
//!   "ancestors": ["projects/123", "folders/456", "organizations/789"],
//!   "resource": { "data": { } } }
//! ```
//!
//! Edges follow from the structure of a record alone: containment from the
//! chain of ancestors, references from every string in the data that is a
//! full resource name or a compute link.

use crate::graph::{Op, TemporalGraph};
use crate::json;
use crate::json::{Json, JsonV};
use crate::model::{OpV, Ts};
use crate::query;
use crate::records;
use crate::records::{documents, text_of_part};
use crate::snapshot;
use crate::snapshot::{ingest_snapshot_ops, Batch};
use crate::text;
use crate::text::{after_prefix, has_infix, has_prefix, same_text, split_text};
use vstd::hash_set::StringHashSet;
use vstd::prelude::*;

verus! {

pub const KIND_CONTAINS: &'static str = "CONTAINS";

pub const KIND_REFERENCES: &'static str = "REFERENCES";

/// A record of one asset.
#[derive(Debug)]
pub struct CaiAsset {
    pub name: String,
    pub asset_type: String,
    /// From the nearest ancestor to the root.
    pub ancestors: Vec<String>,
    pub resource: Option<CaiResource>,
}

#[derive(Debug)]
pub struct CaiResource {
    pub data: Json,
}

/// The mathematical form of a [`CaiAsset`].
pub struct AssetV {
    pub name: Seq<char>,
    pub asset_type: Seq<char>,
    pub ancestors: Seq<Seq<char>>,
    /// The data of the resource, where there is one.
    pub data: Option<JsonV>,
}

impl View for CaiAsset {
    type V = AssetV;

    open spec fn view(&self) -> AssetV {
        AssetV {
            name: self.name@,
            asset_type: self.asset_type@,
            ancestors: text::views(self.ancestors@),
            data: match self.resource {
                Some(r) => Some(r.data@),
                None => None,
            },
        }
    }
}

pub open spec fn asset_views(v: Seq<CaiAsset>) -> Seq<AssetV> {
    v.map_values(|a: CaiAsset| a@)
}

/// The type of an ancestor by the collection that it stands in.
pub open spec fn ancestor_type(ancestor: Seq<char>) -> Option<Seq<char>> {
    let head = text::split_char(ancestor, '/')[0];
    if head == "projects"@ {
        Some("cloudresourcemanager.googleapis.com/Project"@)
    } else if head == "folders"@ {
        Some("cloudresourcemanager.googleapis.com/Folder"@)
    } else if head == "organizations"@ {
        Some("cloudresourcemanager.googleapis.com/Organization"@)
    } else {
        None
    }
}

pub open spec fn ancestor_name(ancestor: Seq<char>) -> Seq<char> {
    "//cloudresourcemanager.googleapis.com/"@ + ancestor
}

/// "projects/123" -> name and type of the node; `None` for any other
/// collection than projects, folders and organizations.
fn crm_node(ancestor: &str) -> (res: Option<(String, &'static str)>)
    ensures
        match res {
            Some((n, t)) => n@ == ancestor_name(ancestor@) && ancestor_type(ancestor@) == Some(t@),
            None => ancestor_type(ancestor@) is None,
        },
{
    let parts = split_text(ancestor, '/');
    proof {
        text::lemma_split_nonempty(ancestor@, text::equals('/'));
        assert(text::views(parts@)[0] == parts@[0]@);
    }
    let head = parts[0].as_str();
    let t: &'static str = if same_text(head, "projects") {
        "cloudresourcemanager.googleapis.com/Project"
    } else if same_text(head, "folders") {
        "cloudresourcemanager.googleapis.com/Folder"
    } else if same_text(head, "organizations") {
        "cloudresourcemanager.googleapis.com/Organization"
    } else {
        return None;
    };
    let mut name = "//cloudresourcemanager.googleapis.com/".to_owned();
    name.append(ancestor);
    Some((name, t))
}

pub open spec fn link_v1() -> Seq<char> {
    "https://www.googleapis.com/compute/v1/"@
}

pub open spec fn link_v1_regional() -> Seq<char> {
    "https://compute.googleapis.com/compute/v1/"@
}

/// A string as a full resource name, where it is one or is a compute link.
pub open spec fn full_name(s: Seq<char>) -> Option<Seq<char>> {
    if "//"@.is_prefix_of(s) && text::contains_text(s, ".googleapis.com/"@) {
        Some(s)
    } else if link_v1().is_prefix_of(s) {
        Some("//compute.googleapis.com/"@ + s.skip(link_v1().len() as int))
    } else if link_v1_regional().is_prefix_of(s) {
        Some("//compute.googleapis.com/"@ + s.skip(link_v1_regional().len() as int))
    } else {
        None
    }
}

fn as_full_resource_name(s: &str) -> (res: Option<String>)
    ensures
        match res {
            Some(n) => full_name(s@) == Some(n@),
            None => full_name(s@) is None,
        },
{
    if has_prefix(s, "//") && has_infix(s, ".googleapis.com/") {
        return Some(s.to_owned());
    }
    let rest: String = match after_prefix(s, "https://www.googleapis.com/compute/v1/") {
        Some(r) => r,
        None => match after_prefix(s, "https://compute.googleapis.com/compute/v1/") {
            Some(r) => r,
            None => {
                return None;
            },
        },
    };
    let mut n = "//compute.googleapis.com/".to_owned();
    n.append(rest.as_str());
    Some(n)
}

/// A text without the pairs of slashes that it begins with.
pub open spec fn without_slashes(s: Seq<char>) -> Seq<char>
    decreases s.len(),
{
    if s.len() >= 2 && s[0] == '/' && s[1] == '/' {
        without_slashes(s.skip(2))
    } else {
        s
    }
}

/// The type of a node by its name alone: the service and the collection that
/// the last segment stands in.
pub open spec fn inferred_type(full: Seq<char>) -> Seq<char> {
    let parts = text::split_char(without_slashes(full), '/');
    if parts.len() >= 3 {
        parts[0] + "/"@ + parts[parts.len() - 2]
    } else {
        parts[0] + "/unknown"@
    }
}

fn infer_type(full: &str) -> (res: String)
    ensures
        res@ == inferred_type(full@),
{
    let v = text::chars_of(full);
    let mut i: usize = 0;
    assert(v@.skip(0) =~= v@);
    while v.len() - i >= 2 && v[i] == '/' && v[i + 1] == '/'
        invariant
            i <= v@.len(),
            without_slashes(v@) == without_slashes(v@.skip(i as int)),
        decreases v@.len() - i,
    {
        assert(v@.skip(i as int).skip(2) =~= v@.skip(i + 2));
        i += 2;
    }
    let body = text::text_of(&v, i, v.len());
    assert(body@ =~= v@.skip(i as int));
    let parts = split_text(body.as_str(), '/');
    proof {
        text::lemma_split_nonempty(body@, text::equals('/'));
        assert(text::views(parts@)[0] == parts@[0]@);
    }
    let n: usize = parts.len();
    let mut t = parts[0].clone();
    if n >= 3 {
        assert(text::views(parts@)[n - 2] == parts@[n - 2]@);
        t.append("/");
        t.append(parts[n - 2].as_str());
    } else {
        t.append("/unknown");
    }
    t
}

/// The resource names in a document, in the order in which they stand, other
/// than `own`.
pub open spec fn refs_of(v: JsonV, own: Seq<char>) -> Seq<Seq<char>>
    decreases v,
{
    match v {
        JsonV::Str(s) => match full_name(s) {
            Some(n) => if n == own {
                Seq::empty()
            } else {
                seq![n]
            },
            None => Seq::empty(),
        },
        JsonV::Arr(a) => item_refs(a, own),
        JsonV::Obj(o) => field_refs(o, own),
        _ => Seq::empty(),
    }
}

pub open spec fn item_refs(a: Seq<JsonV>, own: Seq<char>) -> Seq<Seq<char>>
    decreases a,
{
    if a.len() == 0 {
        Seq::empty()
    } else {
        item_refs(a.drop_last(), own) + refs_of(a.last(), own)
    }
}

pub open spec fn field_refs(o: Seq<(Seq<char>, JsonV)>, own: Seq<char>) -> Seq<Seq<char>>
    decreases o,
{
    if o.len() == 0 {
        Seq::empty()
    } else {
        field_refs(o.drop_last(), own) + refs_of(o.last().1, own)
    }
}

/// Appends the resource names in a document, other than `own`.
fn collect_refs(v: &Json, own: &str, out: &mut Vec<String>)
    ensures
        text::views(final(out)@) == text::views(old(out)@) + refs_of(v@, own@),
    decreases v,
{
    let ghost start = text::views(out@);
    proof {
        json::lemma_json_view(*v);
    }
    match v {
        Json::Str(s) => {
            match as_full_resource_name(s.as_str()) {
                Some(n) => {
                    if !same_text(n.as_str(), own) {
                        proof {
                            query::lemma_views_push(out@, n);
                        }
                        out.push(n);
                        assert(start.push(n@) =~= start + seq![n@]);
                    } else {
                        assert(start =~= start + Seq::<Seq<char>>::empty());
                    }
                },
                None => {
                    assert(start =~= start + Seq::<Seq<char>>::empty());
                },
            }
        },
        Json::Arr(a) => {
            let ghost items = json::items_view(a@);
            let mut i: usize = 0;
            assert(items.take(0) =~= Seq::empty());
            assert(start =~= start + item_refs(items.take(0), own@));
            while i < a.len()
                invariant
                    i <= a@.len(),
                    *v == Json::Arr(*a),
                    items == json::items_view(a@),
                    text::views(out@) == start + item_refs(items.take(i as int), own@),
                decreases a@.len() - i,
            {
                proof {
                    assert(decreases_to!(*v => v->Arr_0));
                    assert(decreases_to!(*a => a@));
                    assert(decreases_to!(a@ => a@[i as int]));
                    assert(items.take(i + 1).drop_last() =~= items.take(i as int));
                    assert(items.take(i + 1).last() == a@[i as int]@);
                }
                collect_refs(&a[i], own, out);
                assert(text::views(out@) =~= start + item_refs(items.take(i + 1), own@));
                i += 1;
            }
            assert(items.take(items.len() as int) =~= items);
        },
        Json::Obj(o) => {
            let ghost items = json::fields_view(o@);
            let mut i: usize = 0;
            assert(items.take(0) =~= Seq::empty());
            assert(start =~= start + field_refs(items.take(0), own@));
            while i < o.len()
                invariant
                    i <= o@.len(),
                    *v == Json::Obj(*o),
                    items == json::fields_view(o@),
                    text::views(out@) == start + field_refs(items.take(i as int), own@),
                decreases o@.len() - i,
            {
                proof {
                    assert(decreases_to!(*v => v->Obj_0));
                    assert(decreases_to!(*o => o@));
                    assert(decreases_to!(o@ => o@[i as int]));
                    assert(decreases_to!(o@[i as int] => o@[i as int].1));
                    assert(items.take(i + 1).drop_last() =~= items.take(i as int));
                    assert(items.take(i + 1).last() == items[i as int]);
                }
                collect_refs(&o[i].1, own, out);
                assert(text::views(out@) =~= start + field_refs(items.take(i + 1), own@));
                i += 1;
            }
            assert(items.take(items.len() as int) =~= items);
        },
        _ => {
            assert(start =~= start + Seq::<Seq<char>>::empty());
        },
    }
}

/// The containment chain of an asset: mutations, ancestors asserted, and the
/// node at the top of the chain so far. Each ancestor contains the one before
/// it; the asset itself among its ancestors is passed over.
pub open spec fn chain(name: Seq<char>, ancestors: Seq<Seq<char>>, ts: Ts) -> (
    Seq<OpV>,
    Seq<Seq<char>>,
    Seq<char>,
)
    decreases ancestors.len(),
{
    if ancestors.len() == 0 {
        (Seq::empty(), Seq::empty(), name)
    } else {
        let (ops, above, child) = chain(name, ancestors.drop_last(), ts);
        let a = ancestor_name(ancestors.last());
        match ancestor_type(ancestors.last()) {
            Some(t) => if a == name {
                (ops, above, child)
            } else {
                (
                    ops.push(
                        OpV::ObservePlaceholder { name: a, inferred_type: t, ts, origin: None },
                    ).push(
                        OpV::ObserveEdge {
                            src: a,
                            dst: child,
                            kind: KIND_CONTAINS@,
                            ts,
                            origin: None,
                        },
                    ),
                    above.push(a),
                    a,
                )
            },
            None => (ops, above, child),
        }
    }
}

/// The elements of a list, each once, in the order of first occurrence.
pub open spec fn once(s: Seq<Seq<char>>) -> Seq<Seq<char>>
    decreases s.len(),
{
    if s.len() == 0 {
        s
    } else {
        let before = once(s.drop_last());
        if before.contains(s.last()) {
            before
        } else {
            before.push(s.last())
        }
    }
}

/// The mutations for references: each target as a placeholder, then the edge.
pub open spec fn reference_ops(name: Seq<char>, refs: Seq<Seq<char>>, ts: Ts) -> Seq<OpV>
    decreases refs.len(),
{
    if refs.len() == 0 {
        Seq::empty()
    } else {
        reference_ops(name, refs.drop_last(), ts).push(
            OpV::ObservePlaceholder {
                name: refs.last(),
                inferred_type: inferred_type(refs.last()),
                ts,
                origin: None,
            },
        ).push(
            OpV::ObserveEdge {
                src: name,
                dst: refs.last(),
                kind: KIND_REFERENCES@,
                ts,
                origin: None,
            },
        )
    }
}

pub open spec fn props_of(a: AssetV) -> JsonV {
    match a.data {
        Some(d) => d,
        None => JsonV::Null,
    }
}

/// The mutations for an asset: the asset, its containment chain, its
/// references.
pub open spec fn ops_of(a: AssetV, ts: Ts) -> Seq<OpV> {
    seq![
        OpV::ObserveNode {
            name: a.name,
            asset_type: a.asset_type,
            props: props_of(a),
            ts,
            origin: None,
        },
    ] + chain(a.name, a.ancestors, ts).0 + reference_ops(
        a.name,
        once(refs_of(props_of(a), a.name)),
        ts,
    )
}

/// The names that an asset asserts: its own and those of its ancestors.
pub open spec fn names_of(a: AssetV, ts: Ts) -> Seq<Seq<char>> {
    seq![a.name] + chain(a.name, a.ancestors, ts).1
}

/// Translates one asset into mutations and the names that it asserts.
pub fn asset_ops(asset: &CaiAsset, ts: Ts) -> (res: Batch)
    ensures
        snapshot::op_views(res.0@) == ops_of(asset@, ts),
        text::views(res.1@) == names_of(asset@, ts),
{
    let ghost a = asset@;
    let props: Json = match &asset.resource {
        Some(r) => r.data.copy(),
        None => Json::Null,
    };
    assert(props@ == props_of(a));
    let mut ops: Vec<Op> = Vec::new();
    let mut asserted: Vec<String> = Vec::new();
    asserted.push(asset.name.clone());
    ops.push(
        Op::ObserveNode {
            name: asset.name.clone(),
            asset_type: asset.asset_type.clone(),
            props: props.copy(),
            ts,
            origin: None,
        },
    );
    let ghost head = seq![ops@[0]@];
    let mut child: String = asset.name.clone();
    let mut i: usize = 0;
    proof {
        assert(a.ancestors.take(0) =~= Seq::empty());
        assert(snapshot::op_views(ops@) =~= head + chain(a.name, a.ancestors.take(0), ts).0);
        assert(text::views(asserted@) =~= seq![a.name] + chain(a.name, a.ancestors.take(0), ts).1);
    }
    while i < asset.ancestors.len()
        invariant
            i <= asset.ancestors@.len(),
            a == asset@,
            snapshot::op_views(ops@) == head + chain(a.name, a.ancestors.take(i as int), ts).0,
            text::views(asserted@) == seq![a.name] + chain(
                a.name,
                a.ancestors.take(i as int),
                ts,
            ).1,
            child@ == chain(a.name, a.ancestors.take(i as int), ts).2,
        decreases asset.ancestors@.len() - i,
    {
        let anc = asset.ancestors[i].as_str();
        proof {
            assert(a.ancestors.take(i + 1).drop_last() =~= a.ancestors.take(i as int));
            assert(a.ancestors.take(i + 1).last() == anc@);
        }
        if let Some((anc_name, anc_type)) = crm_node(anc) {
            if !same_text(anc_name.as_str(), asset.name.as_str()) {
                let ghost before = ops@;
                let ghost named = asserted@;
                let p = Op::ObservePlaceholder {
                    name: anc_name.clone(),
                    inferred_type: anc_type.to_owned(),
                    ts,
                    origin: None,
                };
                let e = Op::ObserveEdge {
                    src: anc_name.clone(),
                    dst: child,
                    kind: KIND_CONTAINS.to_owned(),
                    ts,
                    origin: None,
                };
                ops.push(p);
                ops.push(e);
                asserted.push(anc_name.clone());
                proof {
                    assert(snapshot::op_views(ops@) =~= snapshot::op_views(before).push(p@).push(
                        e@,
                    ));
                    assert(text::views(asserted@) =~= text::views(named).push(anc_name@));
                    assert(snapshot::op_views(ops@) =~= head + chain(
                        a.name,
                        a.ancestors.take(i + 1),
                        ts,
                    ).0);
                    assert(text::views(asserted@) =~= seq![a.name] + chain(
                        a.name,
                        a.ancestors.take(i + 1),
                        ts,
                    ).1);
                }
                child = anc_name;
            }
        }
        i += 1;
    }
    assert(a.ancestors.take(a.ancestors.len() as int) =~= a.ancestors);
    let ghost upper = snapshot::op_views(ops@);
    let mut refs: Vec<String> = Vec::new();
    let ghost none = text::views(refs@);
    collect_refs(&props, asset.name.as_str(), &mut refs);
    let ghost all = refs_of(props@, a.name);
    assert(text::views(refs@) =~= all) by {
        assert(none =~= Seq::empty());
    }
    let mut seen = StringHashSet::new();
    let mut j: usize = 0;
    proof {
        assert(all.take(0) =~= Seq::empty());
        assert(once(all.take(0)).to_set() =~= Set::empty());
        assert(upper =~= upper + reference_ops(a.name, once(all.take(0)), ts));
    }
    while j < refs.len()
        invariant
            j <= refs@.len(),
            a == asset@,
            text::views(refs@) == all,
            seen@ == once(all.take(j as int)).to_set(),
            snapshot::op_views(ops@) == upper + reference_ops(
                a.name,
                once(all.take(j as int)),
                ts,
            ),
        decreases refs@.len() - j,
    {
        let r = refs[j].clone();
        let ghost done = once(all.take(j as int));
        proof {
            assert(all[j as int] == r@);
            assert(all.take(j + 1).drop_last() =~= all.take(j as int));
            assert(all.take(j + 1).last() == r@);
        }
        if seen.insert(r.clone()) {
            let ghost before = ops@;
            let p = Op::ObservePlaceholder {
                name: r.clone(),
                inferred_type: infer_type(r.as_str()),
                ts,
                origin: None,
            };
            let e = Op::ObserveEdge {
                src: asset.name.clone(),
                dst: r,
                kind: KIND_REFERENCES.to_owned(),
                ts,
                origin: None,
            };
            ops.push(p);
            ops.push(e);
            proof {
                let more = once(all.take(j + 1));
                assert(!done.contains(r@));
                assert(more == done.push(r@));
                assert(more.drop_last() =~= done);
                assert(snapshot::op_views(ops@) =~= snapshot::op_views(before).push(p@).push(e@));
                assert(snapshot::op_views(ops@) =~= upper + reference_ops(a.name, more, ts));
                assert(more.to_set() =~= done.to_set().insert(r@)) by {
                    assert forall|x: Seq<char>| more.contains(x) == (done.contains(x) || x == r@) by {
                        if done.contains(x) {
                            let k = done.index_of(x);
                            assert(more[k] == x);
                        }
                        assert(more[done.len() as int] == r@);
                    }
                }
            }
        } else {
            assert(seen@ =~= done.to_set());
            assert(done.contains(r@));
        }
        j += 1;
    }
    assert(all.take(all.len() as int) =~= all);
    (ops, asserted)
}

/// Strings of an array: all of them, or `None` where an element is none.
pub open spec fn strings_of(a: Seq<JsonV>) -> Option<Seq<Seq<char>>>
    decreases a.len(),
{
    if a.len() == 0 {
        Some(Seq::empty())
    } else {
        match (strings_of(a.drop_last()), a.last()) {
            (Some(before), JsonV::Str(s)) => Some(before.push(s)),
            _ => None,
        }
    }
}

pub open spec fn strings_part(v: Option<JsonV>) -> Option<Seq<Seq<char>>> {
    match v {
        None => Some(Seq::empty()),
        Some(JsonV::Arr(a)) => strings_of(a),
        _ => None,
    }
}

/// The data of a resource that may be absent or null: `None` where it is no
/// resource.
pub open spec fn resource_part(v: Option<JsonV>) -> Option<Option<JsonV>> {
    match v {
        None => Some(None),
        Some(JsonV::Null) => Some(None),
        Some(r) => if records::is_record(r, 1) {
            match records::part_of(r, "data"@, 0) {
                Some(d) => Some(Some(d)),
                None => Some(Some(JsonV::Null)),
            }
        } else {
            None
        },
    }
}

/// A document as an asset: name and type are strings and required; the rest
/// may be absent.
pub open spec fn asset_of(v: JsonV) -> Option<AssetV> {
    if !records::is_record(v, 4) {
        None
    } else {
        match (
            records::text_part(records::part_of(v, "name"@, 0)),
            records::text_part(records::part_of(v, "assetType"@, 1)),
            strings_part(records::part_of(v, "ancestors"@, 2)),
            resource_part(records::part_of(v, "resource"@, 3)),
        ) {
            (Some(name), Some(asset_type), Some(ancestors), Some(data)) => Some(
                AssetV { name, asset_type, ancestors, data },
            ),
            _ => None,
        }
    }
}

/// Documents as assets: all of them, or none.
pub open spec fn assets_of(a: Seq<JsonV>) -> Option<Seq<AssetV>>
    decreases a.len(),
{
    if a.len() == 0 {
        Some(Seq::empty())
    } else {
        match (assets_of(a.drop_last()), asset_of(a.last())) {
            (Some(before), Some(e)) => Some(before.push(e)),
            _ => None,
        }
    }
}

pub open spec fn not_an_asset() -> Seq<char> {
    "a record is not an asset"@
}

/// The assets of a record file. Of a member that is repeated the last one
/// counts. JSON that is no asset is answered in words of this library, not of
/// `serde`.
pub open spec fn parsed(s: Seq<char>) -> Result<Seq<AssetV>, Seq<char>> {
    match records::documents_of(s) {
        Ok(docs) => match assets_of(docs) {
            Some(a) => Ok(a),
            None => Err(not_an_asset()),
        },
        Err(e) => Err(e),
    }
}

proof fn lemma_strings_fail(a: Seq<JsonV>, k: int)
    requires
        0 <= k <= a.len(),
        strings_of(a.take(k)) is None,
    ensures
        strings_of(a) is None,
    decreases a.len() - k,
{
    if k == a.len() {
        assert(a.take(k) =~= a);
    } else {
        assert(a.drop_last().take(k) =~= a.take(k));
        lemma_strings_fail(a.drop_last(), k);
    }
}

proof fn lemma_assets_fail(a: Seq<JsonV>, k: int)
    requires
        0 <= k <= a.len(),
        assets_of(a.take(k)) is None,
    ensures
        assets_of(a) is None,
    decreases a.len() - k,
{
    if k == a.len() {
        assert(a.take(k) =~= a);
    } else {
        assert(a.drop_last().take(k) =~= a.take(k));
        lemma_assets_fail(a.drop_last(), k);
    }
}

fn decode_strings(v: Option<&Json>) -> (res: Option<Vec<String>>)
    ensures
        match res {
            Some(ss) => strings_part(records::json_opt(v)) == Some(text::views(ss@)),
            None => strings_part(records::json_opt(v)) is None,
        },
{
    let mut out: Vec<String> = Vec::new();
    assert(text::views(out@) =~= Seq::empty());
    match v {
        None => Some(out),
        Some(j) => {
            proof {
                json::lemma_json_view(*j);
            }
            match j {
                Json::Arr(a) => {
                    let ghost docs = json::items_view(a@);
                    let mut i: usize = 0;
                    assert(docs.take(0) =~= Seq::empty());
                    while i < a.len()
                        invariant
                            i <= a@.len(),
                            docs == json::items_view(a@),
                            strings_of(docs.take(i as int)) == Some(text::views(out@)),
                            strings_part(records::json_opt(v)) == strings_of(docs),
                        decreases a@.len() - i,
                    {
                        proof {
                            assert(docs.take(i + 1).drop_last() =~= docs.take(i as int));
                            assert(docs.take(i + 1).last() == a@[i as int]@);
                        }
                        match &a[i] {
                            Json::Str(s) => {
                                proof {
                                    query::lemma_views_push(out@, *s);
                                }
                                out.push(s.clone());
                            },
                            _ => {
                                proof {
                                    lemma_strings_fail(docs, i + 1);
                                }
                                return None;
                            },
                        }
                        i += 1;
                    }
                    assert(docs.take(docs.len() as int) =~= docs);
                    Some(out)
                },
                _ => None,
            }
        },
    }
}

fn decode_resource(v: Option<&Json>) -> (res: Option<Option<CaiResource>>)
    ensures
        match res {
            Some(Some(r)) => resource_part(records::json_opt(v)) == Some(Some(r.data@)),
            Some(None) => resource_part(records::json_opt(v)) == Some(None::<JsonV>),
            None => resource_part(records::json_opt(v)) is None,
        },
{
    match v {
        None => Some(None),
        Some(Json::Null) => Some(None),
        Some(r) => {
            if !r.record(1) {
                return None;
            }
            match r.part("data", 0) {
                Some(d) => Some(Some(CaiResource { data: d.copy() })),
                None => Some(Some(CaiResource { data: Json::Null })),
            }
        },
    }
}

/// A document as an asset.
pub fn decode_asset(j: &Json) -> (res: Option<CaiAsset>)
    ensures
        match res {
            Some(a) => asset_of(j@) == Some(a@),
            None => asset_of(j@) is None,
        },
{
    if !j.record(4) {
        return None;
    }
    match (
        text_of_part(j.part("name", 0)),
        text_of_part(j.part("assetType", 1)),
        decode_strings(j.part("ancestors", 2)),
        decode_resource(j.part("resource", 3)),
    ) {
        (Some(name), Some(asset_type), Some(ancestors), Some(resource)) => Some(
            CaiAsset { name, asset_type, ancestors, resource },
        ),
        _ => None,
    }
}

/// Reads assets from a JSON array, or from one document per line.
pub fn parse_snapshot(s: &str) -> (res: Result<Vec<CaiAsset>, String>)
    ensures
        match res {
            Ok(a) => parsed(s@) == Ok::<Seq<AssetV>, Seq<char>>(asset_views(a@)),
            Err(e) => parsed(s@) == Err::<Seq<AssetV>, Seq<char>>(e@),
        },
{
    let a = match documents(s) {
        Ok(v) => v,
        Err(e) => {
            return Err(e);
        },
    };
    let ghost docs = json::items_view(a@);
    let mut out: Vec<CaiAsset> = Vec::new();
    let mut i: usize = 0;
    assert(docs.take(0) =~= Seq::empty());
    assert(asset_views(out@) =~= Seq::empty());
    while i < a.len()
        invariant
            i <= a@.len(),
            docs == json::items_view(a@),
            records::documents_of(s@) == Ok::<Seq<JsonV>, Seq<char>>(docs),
            assets_of(docs.take(i as int)) == Some(asset_views(out@)),
        decreases a@.len() - i,
    {
        proof {
            assert(docs.take(i + 1).drop_last() =~= docs.take(i as int));
            assert(docs.take(i + 1).last() == a@[i as int]@);
        }
        match decode_asset(&a[i]) {
            Some(e) => {
                let ghost o = out@;
                out.push(e);
                assert(asset_views(out@) =~= asset_views(o).push(e@));
            },
            None => {
                proof {
                    lemma_assets_fail(docs, i + 1);
                }
                return Err("a record is not an asset".to_owned());
            },
        }
        i += 1;
    }
    assert(docs.take(docs.len() as int) =~= docs);
    Ok(out)
}

/// Ingests one asset observed at `ts`. Returns the names that it asserts.
pub fn ingest_asset(g: &mut TemporalGraph, asset: &CaiAsset, ts: Ts) -> (res: Vec<String>)
    requires
        old(g).wf(),
        old(g)@.room(ops_of(asset@, ts).len()),
    ensures
        final(g).wf(),
        final(g)@ == old(g)@.apply_all(ops_of(asset@, ts)),
        text::views(res@) == names_of(asset@, ts),
{
    let (ops, asserted) = asset_ops(asset, ts);
    let ghost all = ops_of(asset@, ts);
    let ghost start = g@;
    let mut i: usize = 0;
    assert(all.take(0) =~= Seq::empty());
    while i < ops.len()
        invariant
            i <= ops@.len(),
            snapshot::op_views(ops@) == all,
            g.wf(),
            g@ == start.apply_all(all.take(i as int)),
            g@.room((all.len() - i) as nat),
        decreases ops@.len() - i,
    {
        proof {
            assert(all[i as int] == ops@[i as int]@);
            assert(all.take(i + 1).drop_last() =~= all.take(i as int));
            g.lemma_wf();
            g@.lemma_apply_room(all[i as int], (all.len() - i) as nat);
        }
        g.apply(&ops[i]);
        i += 1;
    }
    assert(all.take(all.len() as int) =~= all);
    asserted
}

/// The mutations of several assets.
pub open spec fn all_ops(assets: Seq<AssetV>, ts: Ts) -> Seq<OpV>
    decreases assets.len(),
{
    if assets.len() == 0 {
        Seq::empty()
    } else {
        all_ops(assets.drop_last(), ts) + ops_of(assets.last(), ts)
    }
}

/// The names that several assets assert.
pub open spec fn all_names(assets: Seq<AssetV>, ts: Ts) -> Set<Seq<char>>
    decreases assets.len(),
{
    if assets.len() == 0 {
        Set::empty()
    } else {
        all_names(assets.drop_last(), ts).union(names_of(assets.last(), ts).to_set())
    }
}

/// Translates assets into batches, one for each.
pub fn asset_batches(assets: &Vec<CaiAsset>, ts: Ts) -> (res: Vec<Batch>)
    ensures
        snapshot::batch_ops(res@) == all_ops(asset_views(assets@), ts),
        snapshot::batch_names(res@) == all_names(asset_views(assets@), ts),
{
    let ghost all = asset_views(assets@);
    let mut out: Vec<Batch> = Vec::new();
    let mut i: usize = 0;
    proof {
        assert(all.take(0) =~= Seq::empty());
        assert(snapshot::batch_ops(out@) =~= Seq::empty());
        assert(snapshot::batch_names(out@) =~= Set::empty());
    }
    while i < assets.len()
        invariant
            i <= assets@.len(),
            all == asset_views(assets@),
            snapshot::batch_ops(out@) == all_ops(all.take(i as int), ts),
            snapshot::batch_names(out@) == all_names(all.take(i as int), ts),
        decreases assets@.len() - i,
    {
        let b = asset_ops(&assets[i], ts);
        let ghost o = out@;
        out.push(b);
        proof {
            assert(out@.drop_last() =~= o);
            assert(out@.last() == b);
            assert(all.take(i + 1).drop_last() =~= all.take(i as int));
            assert(all.take(i + 1).last() == assets@[i as int]@);
        }
        i += 1;
    }
    assert(all.take(all.len() as int) =~= all);
    out
}

/// Ingests parsed assets as a complete snapshot taken at `ts`. Returns the
/// names of the nodes that were retired.
pub fn ingest_assets<S: snapshot::OpSink>(sink: &mut S, assets: &Vec<CaiAsset>, ts: Ts) -> (res: Result<
    Vec<String>,
    String,
>)
    requires
        old(sink).sink_wf(),
    ensures
        final(sink).sink_wf(),
        snapshot::ingestion(
            *old(sink),
            *final(sink),
            all_ops(asset_views(assets@), ts),
            all_names(asset_views(assets@), ts),
            ts,
            true,
            res,
        ),
        S::steady() ==> snapshot::exact_ingestion(
            *old(sink),
            *final(sink),
            all_ops(asset_views(assets@), ts),
            all_names(asset_views(assets@), ts),
            ts,
            true,
            res,
        ),
{
    let batches = asset_batches(assets, ts);
    ingest_snapshot_ops(sink, batches, ts, true)
}

/// Ingests a complete snapshot given as JSON. Where the text is not a list of
/// assets, nothing is ingested.
pub fn ingest_snapshot(g: &mut TemporalGraph, s: &str, ts: Ts) -> (res: Result<Vec<String>, String>)
    requires
        old(g).wf(),
    ensures
        final(g).wf(),
        match parsed(s@) {
            Ok(assets) => {
                let (h, outcome) = snapshot::ingested(
                    old(g)@,
                    all_ops(assets, ts),
                    all_names(assets, ts),
                    ts,
                    true,
                );
                &&& final(g)@ == h
                &&& match res {
                    Ok(stale) => outcome == Some(text::views(stale@)),
                    Err(e) => outcome is None && e@ == "graph is full: no ids are left"@,
                }
            },
            Err(m) => {
                &&& final(g)@ == old(g)@
                &&& res matches Err(e) && e@ == m
            },
        },
{
    match parse_snapshot(s) {
        Ok(assets) => ingest_assets(g, &assets, ts),
        Err(e) => Err(e),
    }
}

} // verus!
