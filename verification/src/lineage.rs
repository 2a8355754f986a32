//! Laws of ingestion, stated over the records that come in and the graph that
//! comes of them: an asset lies below its ancestors and points at what its data
//! names; an entity holds the edges that it lists.

use crate::entity;
use crate::gcp;
use crate::history;
use crate::json;
use crate::json::JsonV;
use crate::model;
use crate::model::{GraphV, OpV, Ts, T_MAX};
use crate::moments;
use crate::query;
use crate::reconciling;
use crate::recording;
use crate::snapshot;
use crate::text;
use vstd::prelude::*;

verus! {

// ---------------------------------------------------------------------------
// Containment
// ---------------------------------------------------------------------------

/// The text is the name of the collection, or begins with it and a slash.
pub open spec fn is_in(a: Seq<char>, collection: Seq<char>) -> bool {
    a == collection || (a.len() > collection.len() && a.take(collection.len() as int) == collection
        && a[collection.len() as int] == '/')
}

/// The ancestor is a project, a folder or an organization.
pub open spec fn is_container(a: Seq<char>) -> bool {
    is_in(a, "projects"@) || is_in(a, "folders"@) || is_in(a, "organizations"@)
}

/// The name of the node of an ancestor.
pub open spec fn container_name(a: Seq<char>) -> Seq<char> {
    "//cloudresourcemanager.googleapis.com/"@ + a
}

/// Ancestor `j` is a container and is not the asset itself.
pub open spec fn is_listed(name: Seq<char>, ancestors: Seq<Seq<char>>, j: int) -> bool {
    &&& 0 <= j < ancestors.len()
    &&& is_container(ancestors[j])
    &&& container_name(ancestors[j]) != name
}

/// `below` is what ancestor `j` contains: the nearest one that is listed before
/// it, or the asset where none is.
pub open spec fn is_below(
    name: Seq<char>,
    ancestors: Seq<Seq<char>>,
    j: int,
    below: Seq<char>,
) -> bool {
    ||| below == name && forall|i: int| 0 <= i < j ==> !#[trigger] is_listed(name, ancestors, i)
    ||| exists|i: int| #[trigger]
        is_nearest(name, ancestors, j, i) && below == container_name(ancestors[i])
}

/// `i` is listed and is the last one before `j` that is.
pub open spec fn is_nearest(name: Seq<char>, ancestors: Seq<Seq<char>>, j: int, i: int) -> bool {
    &&& i < j
    &&& is_listed(name, ancestors, i)
    &&& forall|k: int| i < k < j ==> !#[trigger] is_listed(name, ancestors, k)
}

/// The first piece of a text is what stands before the first separator.
proof fn lemma_first_piece(s: Seq<char>, sep: spec_fn(char) -> bool)
    ensures
        ({
            let h = text::split(s, sep)[0];
            &&& text::split(s, sep).len() >= 1
            &&& h.len() <= s.len()
            &&& s.take(h.len() as int) == h
            &&& forall|i: int| 0 <= i < h.len() ==> !sep(#[trigger] s[i])
            &&& h.len() < s.len() ==> sep(s[h.len() as int])
            &&& (text::split(s, sep).len() == 1) == (h.len() == s.len())
        }),
    decreases s.len(),
{
    if s.len() > 0 {
        let front = s.drop_last();
        lemma_first_piece(front, sep);
        let h = text::split(front, sep)[0];
        let r = text::split(s, sep)[0];
        assert(front.take(h.len() as int) =~= s.take(h.len() as int));
        assert forall|i: int| 0 <= i < h.len() implies !sep(#[trigger] s[i]) by {
            assert(front[i] == s[i]);
        }
        if h.len() < front.len() {
            assert(front[h.len() as int] == s[h.len() as int]);
        }
        if text::split(front, sep).len() == 1 {
            assert(h =~= front);
            if sep(s.last()) {
                assert(r == h);
            } else {
                assert(r =~= s);
                assert(s.take(s.len() as int) =~= s);
            }
        } else {
            assert(r == h);
        }
    } else {
        assert(s.take(0) =~= s);
    }
}

proof fn lemma_no_slash()
    ensures
        forall|i: int| 0 <= i < "projects"@.len() ==> #[trigger] "projects"@[i] != '/',
        forall|i: int| 0 <= i < "folders"@.len() ==> #[trigger] "folders"@[i] != '/',
        forall|i: int| 0 <= i < "organizations"@.len() ==> #[trigger] "organizations"@[i] != '/',
{
    reveal_strlit("projects");
    reveal_strlit("folders");
    reveal_strlit("organizations");
}

proof fn lemma_is_in(a: Seq<char>, c: Seq<char>)
    requires
        forall|i: int| 0 <= i < c.len() ==> #[trigger] c[i] != '/',
    ensures
        is_in(a, c) == (text::split_char(a, '/')[0] == c),
{
    lemma_first_piece(a, text::equals('/'));
    let h = text::split_char(a, '/')[0];
    if is_in(a, c) {
        if a == c {
            if h.len() < a.len() {
                assert(c[h.len() as int] == '/');
            }
            assert(a.take(a.len() as int) =~= a);
        } else {
            if h.len() < c.len() {
                assert(a.take(c.len() as int)[h.len() as int] == a[h.len() as int]);
                assert(c[h.len() as int] == '/');
            } else if h.len() > c.len() {
                assert(text::equals('/')(a[c.len() as int]));
            }
        }
    }
    if h == c && h.len() == a.len() {
        assert(a.take(a.len() as int) =~= a);
    }
}

/// What makes an ancestor a container.
proof fn lemma_container(a: Seq<char>)
    ensures
        gcp::ancestor_type(a) is Some <==> is_container(a),
        gcp::ancestor_name(a) == container_name(a),
{
    lemma_no_slash();
    lemma_is_in(a, "projects"@);
    lemma_is_in(a, "folders"@);
    lemma_is_in(a, "organizations"@);
}

/// What the mutations of a chain of ancestors are.
proof fn lemma_chain(name: Seq<char>, ancestors: Seq<Seq<char>>, ts: Ts)
    ensures
        ({
            let c = gcp::chain(name, ancestors, ts);
            &&& is_below(name, ancestors, ancestors.len() as int, c.2)
            &&& forall|k: int|
                0 <= k < c.0.len() ==> is_chain_op(name, ancestors, ts, #[trigger] c.0[k])
            &&& forall|j: int, below: Seq<char>| #[trigger]
                is_below(name, ancestors, j, below) && is_listed(name, ancestors, j)
                    ==> c.0.contains(contains_op(container_name(ancestors[j]), below, ts))
        }),
    decreases ancestors.len(),
{
    let c = gcp::chain(name, ancestors, ts);
    if ancestors.len() > 0 {
        let front = ancestors.drop_last();
        let last = ancestors.len() - 1;
        lemma_chain(name, front, ts);
        lemma_container(ancestors[last]);
        let b = gcp::chain(name, front, ts);
        assert forall|i: int| i < last implies #[trigger] is_listed(name, ancestors, i)
            == is_listed(name, front, i) by {
            if 0 <= i {
                assert(front[i] == ancestors[i]);
            }
        }
        assert forall|j: int, below: Seq<char>|
            j <= last implies #[trigger] is_below(name, ancestors, j, below) == is_below(
            name,
            front,
            j,
            below,
        ) by {
            lemma_below_front(name, ancestors, j, below);
        }
        let on = is_listed(name, ancestors, last);
        let a = container_name(ancestors[last]);
        if on {
            assert(is_nearest(name, ancestors, ancestors.len() as int, last));
        } else {
            lemma_below_skips(name, ancestors, last, b.2);
        }
        assert forall|k: int| 0 <= k < c.0.len() implies is_chain_op(
            name,
            ancestors,
            ts,
            #[trigger] c.0[k],
        ) by {
            if k < b.0.len() {
                assert(c.0[k] == b.0[k]);
                assert(is_chain_op(name, front, ts, b.0[k]));
                match b.0[k] {
                    OpV::ObserveEdge { src, dst, kind, ts: t, origin } => {
                        let j = choose|j: int| #[trigger]
                            is_listed(name, front, j) && src == container_name(front[j])
                                && is_below(name, front, j, dst);
                        assert(is_listed(name, ancestors, j));
                        assert(is_below(name, ancestors, j, dst));
                        assert(front[j] == ancestors[j]);
                    },
                    OpV::ObservePlaceholder { name: n, .. } => {
                        let j = choose|j: int| #[trigger]
                            is_listed(name, front, j) && n == container_name(front[j]);
                        assert(is_listed(name, ancestors, j));
                        assert(front[j] == ancestors[j]);
                    },
                    _ => {},
                }
            } else {
                assert(on);
                assert(is_below(name, ancestors, last, b.2));
            }
        }
        assert forall|j: int, below: Seq<char>| #[trigger]
            is_below(name, ancestors, j, below) && is_listed(
                name,
                ancestors,
                j,
            ) implies c.0.contains(contains_op(container_name(ancestors[j]), below, ts)) by {
            let op = contains_op(container_name(ancestors[j]), below, ts);
            if j < last {
                assert(is_below(name, front, j, below));
                assert(front[j] == ancestors[j]);
                let k = b.0.index_of(op);
                assert(c.0[k] == op);
            } else {
                lemma_below_is_one(name, ancestors, j, below, b.2);
                assert(c.0[c.0.len() - 1] == op);
            }
        }
    }
}

/// What is below an ancestor depends on those before it.
proof fn lemma_below_front(name: Seq<char>, ancestors: Seq<Seq<char>>, j: int, below: Seq<char>)
    requires
        ancestors.len() > 0,
        j <= ancestors.len() - 1,
    ensures
        is_below(name, ancestors, j, below) == is_below(name, ancestors.drop_last(), j, below),
{
    let front = ancestors.drop_last();
    assert forall|i: int|
        #![trigger is_listed(name, ancestors, i)]
        #![trigger is_listed(name, front, i)]
        i < j implies is_listed(name, ancestors, i) == is_listed(name, front, i) by {
        if 0 <= i {
            assert(front[i] == ancestors[i]);
        }
    }
    assert forall|i: int| #[trigger] is_nearest(name, ancestors, j, i) == is_nearest(
        name,
        front,
        j,
        i,
    ) by {}
    if is_below(name, ancestors, j, below) {
        if exists|i: int| #[trigger]
            is_nearest(name, ancestors, j, i) && below == container_name(ancestors[i]) {
            let i = choose|i: int| #[trigger]
                is_nearest(name, ancestors, j, i) && below == container_name(ancestors[i]);
            assert(is_nearest(name, front, j, i));
            assert(front[i] == ancestors[i]);
        }
    }
    if is_below(name, front, j, below) {
        if exists|i: int| #[trigger]
            is_nearest(name, front, j, i) && below == container_name(front[i]) {
            let i = choose|i: int| #[trigger]
                is_nearest(name, front, j, i) && below == container_name(front[i]);
            assert(is_nearest(name, ancestors, j, i));
            assert(front[i] == ancestors[i]);
        }
    }
}

/// An ancestor that is not listed is passed over.
proof fn lemma_below_skips(name: Seq<char>, ancestors: Seq<Seq<char>>, j: int, below: Seq<char>)
    requires
        !is_listed(name, ancestors, j),
        is_below(name, ancestors, j, below),
    ensures
        is_below(name, ancestors, j + 1, below),
{
    if exists|i: int| #[trigger]
        is_nearest(name, ancestors, j, i) && below == container_name(ancestors[i]) {
        let i = choose|i: int| #[trigger]
            is_nearest(name, ancestors, j, i) && below == container_name(ancestors[i]);
        assert(is_nearest(name, ancestors, j + 1, i));
    }
}

/// One thing is below an ancestor.
proof fn lemma_below_is_one(
    name: Seq<char>,
    ancestors: Seq<Seq<char>>,
    j: int,
    a: Seq<char>,
    b: Seq<char>,
)
    requires
        is_below(name, ancestors, j, a),
        is_below(name, ancestors, j, b),
    ensures
        a == b,
{
    if exists|i: int| #[trigger]
        is_nearest(name, ancestors, j, i) && a == container_name(ancestors[i]) {
        let i = choose|i: int| #[trigger]
            is_nearest(name, ancestors, j, i) && a == container_name(ancestors[i]);
        assert(is_listed(name, ancestors, i));
        if exists|k: int| #[trigger]
            is_nearest(name, ancestors, j, k) && b == container_name(ancestors[k]) {
            let k = choose|k: int| #[trigger]
                is_nearest(name, ancestors, j, k) && b == container_name(ancestors[k]);
            assert(is_listed(name, ancestors, k));
            assert(i == k);
        }
    } else {
        if exists|k: int| #[trigger]
            is_nearest(name, ancestors, j, k) && b == container_name(ancestors[k]) {
            let k = choose|k: int| #[trigger]
                is_nearest(name, ancestors, j, k) && b == container_name(ancestors[k]);
            assert(is_listed(name, ancestors, k));
        }
    }
}

spec fn contains_op(src: Seq<char>, dst: Seq<char>, ts: Ts) -> OpV {
    OpV::ObserveEdge { src, dst, kind: "CONTAINS"@, ts, origin: None }
}

/// The mutation is one of the two that a listed ancestor brings.
spec fn is_chain_op(name: Seq<char>, ancestors: Seq<Seq<char>>, ts: Ts, op: OpV) -> bool {
    match op {
        OpV::ObservePlaceholder { name: n, ts: t, origin, .. } => t == ts && origin is None
            && exists|j: int| #[trigger]
            is_listed(name, ancestors, j) && n == container_name(ancestors[j]),
        OpV::ObserveEdge { src, dst, kind, ts: t, origin } => t == ts && origin is None && kind
            == "CONTAINS"@ && exists|j: int| #[trigger]
            is_listed(name, ancestors, j) && src == container_name(ancestors[j]) && is_below(
                name,
                ancestors,
                j,
                dst,
            ),
        _ => false,
    }
}

// ---------------------------------------------------------------------------
// References
// ---------------------------------------------------------------------------

/// The text is a string somewhere in the document, at any depth.
pub open spec fn holds_text(v: JsonV, s: Seq<char>) -> bool
    decreases v,
{
    match v {
        JsonV::Str(t) => t == s,
        JsonV::Arr(a) => exists|i: int| 0 <= i < a.len() && holds_text(#[trigger] a[i], s),
        JsonV::Obj(o) => exists|i: int| 0 <= i < o.len() && holds_text((#[trigger] o[i]).1, s),
        _ => false,
    }
}

/// The text names resource `n`: it is a full resource name, or a compute link.
pub open spec fn refers_to(s: Seq<char>, n: Seq<char>) -> bool {
    ||| n == s && s.len() >= 2 && s[0] == '/' && s[1] == '/' && exists|a: Seq<char>, b: Seq<char>|
        #[trigger] (a + ".googleapis.com/"@ + b) == s
    ||| exists|rest: Seq<char>|
        s == #[trigger] ("https://www.googleapis.com/compute/v1/"@ + rest) && n
            == "//compute.googleapis.com/"@ + rest
    ||| exists|rest: Seq<char>|
        s == #[trigger] ("https://compute.googleapis.com/compute/v1/"@ + rest) && n
            == "//compute.googleapis.com/"@ + rest
}

proof fn lemma_refers_to(s: Seq<char>, n: Seq<char>)
    ensures
        refers_to(s, n) <==> gcp::full_name(s) == Some(n),
{
    reveal_strlit("//");
    reveal_strlit("https://www.googleapis.com/compute/v1/");
    reveal_strlit("https://compute.googleapis.com/compute/v1/");
    let dot = ".googleapis.com/"@;
    let one = "https://www.googleapis.com/compute/v1/"@;
    let two = "https://compute.googleapis.com/compute/v1/"@;
    assert("//"@.is_prefix_of(s) <==> s.len() >= 2 && s[0] == '/' && s[1] == '/') by {
        if s.len() >= 2 {
            assert(s.subrange(0, 2)[0] == s[0] && s.subrange(0, 2)[1] == s[1]);
            if s[0] == '/' && s[1] == '/' {
                assert("//"@ =~= s.subrange(0, 2));
            }
        }
    }
    assert(text::contains_text(s, dot) <==> exists|a: Seq<char>, b: Seq<char>| #[trigger]
        (a + dot + b) == s) by {
        if text::contains_text(s, dot) {
            let i = choose|i: int| #[trigger] text::stands_at(s, dot, i);
            assert(s.take(i) + dot + s.skip(i + dot.len()) =~= s);
        }
        if exists|a: Seq<char>, b: Seq<char>| #[trigger] (a + dot + b) == s {
            let (a, b) = choose|a: Seq<char>, b: Seq<char>| #[trigger] (a + dot + b) == s;
            assert(s.subrange(a.len() as int, (a.len() + dot.len()) as int) =~= dot);
            assert(text::stands_at(s, dot, a.len() as int));
        }
    }
    assert(one[9] == 'w');
    assert(two[9] == 'o');
    assert(one[0] == 'h' && two[0] == 'h');
    if one.is_prefix_of(s) {
        assert(one + s.skip(one.len() as int) =~= s);
    }
    if two.is_prefix_of(s) {
        assert(two + s.skip(two.len() as int) =~= s);
        assert(s[9] == 'o');
    }
    assert forall|rest: Seq<char>| s == #[trigger] (one + rest) implies one.is_prefix_of(s)
        && s.skip(one.len() as int) == rest && s[0] == 'h' && s[9] == 'w' by {
        assert(s.skip(one.len() as int) =~= rest);
    }
    assert forall|rest: Seq<char>| s == #[trigger] (two + rest) implies two.is_prefix_of(s)
        && s.skip(two.len() as int) == rest && s[0] == 'h' && s[9] == 'o' by {
        assert(s.skip(two.len() as int) =~= rest);
    }
}

/// The names in a document: those of its texts that name a resource.
proof fn lemma_refs(v: JsonV, own: Seq<char>, n: Seq<char>)
    ensures
        gcp::refs_of(v, own).contains(n) <==> n != own && exists|s: Seq<char>|
            holds_text(v, s) && #[trigger] refers_to(s, n),
    decreases v,
{
    match v {
        JsonV::Str(t) => {
            lemma_refers_to(t, n);
            if gcp::full_name(t) == Some(n) && n != own {
                assert(gcp::refs_of(v, own)[0] == n);
                assert(holds_text(v, t));
            }
        },
        JsonV::Arr(a) => {
            lemma_item_refs(a, own, n);
            assert((exists|s: Seq<char>| holds_text(v, s) && #[trigger] refers_to(s, n)) <==> exists|
                i: int,
                s: Seq<char>,
            |
                0 <= i < a.len() && holds_text(#[trigger] a[i], s) && #[trigger] refers_to(s, n)) by {
                if exists|s: Seq<char>| holds_text(v, s) && #[trigger] refers_to(s, n) {
                    let s = choose|s: Seq<char>| holds_text(v, s) && #[trigger] refers_to(s, n);
                    let i = choose|i: int| 0 <= i < a.len() && holds_text(#[trigger] a[i], s);
                    assert(holds_text(a[i], s) && refers_to(s, n));
                }
                if exists|i: int, s: Seq<char>|
                    0 <= i < a.len() && holds_text(#[trigger] a[i], s) && #[trigger] refers_to(
                        s,
                        n,
                    ) {
                    let (i, s) = choose|i: int, s: Seq<char>|
                        0 <= i < a.len() && holds_text(#[trigger] a[i], s) && #[trigger] refers_to(
                            s,
                            n,
                        );
                    assert(holds_text(v, s) && refers_to(s, n));
                }
            }
        },
        JsonV::Obj(o) => {
            lemma_field_refs(o, own, n);
            assert((exists|s: Seq<char>| holds_text(v, s) && #[trigger] refers_to(s, n)) <==> exists|
                i: int,
                s: Seq<char>,
            |
                0 <= i < o.len() && holds_text((#[trigger] o[i]).1, s) && #[trigger] refers_to(
                    s,
                    n,
                )) by {
                if exists|s: Seq<char>| holds_text(v, s) && #[trigger] refers_to(s, n) {
                    let s = choose|s: Seq<char>| holds_text(v, s) && #[trigger] refers_to(s, n);
                    let i = choose|i: int| 0 <= i < o.len() && holds_text((#[trigger] o[i]).1, s);
                    assert(holds_text(o[i].1, s) && refers_to(s, n));
                }
                if exists|i: int, s: Seq<char>|
                    0 <= i < o.len() && holds_text((#[trigger] o[i]).1, s) && #[trigger] refers_to(
                        s,
                        n,
                    ) {
                    let (i, s) = choose|i: int, s: Seq<char>|
                        0 <= i < o.len() && holds_text((#[trigger] o[i]).1, s)
                            && #[trigger] refers_to(s, n);
                    assert(holds_text(v, s) && refers_to(s, n));
                }
            }
        },
        _ => {},
    }
}

proof fn lemma_item_refs(a: Seq<JsonV>, own: Seq<char>, n: Seq<char>)
    ensures
        gcp::item_refs(a, own).contains(n) <==> n != own && exists|i: int, s: Seq<char>|
            0 <= i < a.len() && holds_text(#[trigger] a[i], s) && #[trigger] refers_to(s, n),
    decreases a,
{
    if a.len() > 0 {
        let front = a.drop_last();
        assert(decreases_to!(a => front));
        lemma_item_refs(front, own, n);
        assert(a.last() == a[a.len() - 1]);
        lemma_refs(a[a.len() - 1], own, n);
        let x = gcp::item_refs(front, own);
        let y = gcp::refs_of(a.last(), own);
        lemma_concat_contains(x, y, n);
        if n != own {
            if x.contains(n) {
                let (i, s) = choose|i: int, s: Seq<char>|
                    0 <= i < front.len() && holds_text(#[trigger] front[i], s)
                        && #[trigger] refers_to(s, n);
                assert(front[i] == a[i]);
                assert(holds_text(a[i], s) && refers_to(s, n));
            }
            if y.contains(n) {
                let s = choose|s: Seq<char>|
                    holds_text(a[a.len() - 1], s) && #[trigger] refers_to(s, n);
                assert(holds_text(a[a.len() - 1], s) && refers_to(s, n));
            }
            if exists|i: int, s: Seq<char>|
                0 <= i < a.len() && holds_text(#[trigger] a[i], s) && #[trigger] refers_to(s, n) {
                let (i, s) = choose|i: int, s: Seq<char>|
                    0 <= i < a.len() && holds_text(#[trigger] a[i], s) && #[trigger] refers_to(
                        s,
                        n,
                    );
                if i < front.len() {
                    assert(front[i] == a[i]);
                    assert(holds_text(front[i], s) && refers_to(s, n));
                } else {
                    assert(holds_text(a[a.len() - 1], s) && refers_to(s, n));
                }
            }
        }
    }
}

proof fn lemma_field_refs(o: Seq<(Seq<char>, JsonV)>, own: Seq<char>, n: Seq<char>)
    ensures
        gcp::field_refs(o, own).contains(n) <==> n != own && exists|i: int, s: Seq<char>|
            0 <= i < o.len() && holds_text((#[trigger] o[i]).1, s) && #[trigger] refers_to(s, n),
    decreases o,
{
    if o.len() > 0 {
        let front = o.drop_last();
        assert(decreases_to!(o => front));
        lemma_field_refs(front, own, n);
        assert(o.last() == o[o.len() - 1]);
        assert(decreases_to!(o => o[o.len() - 1]));
        assert(decreases_to!(o[o.len() - 1] => o[o.len() - 1].1));
        lemma_refs(o[o.len() - 1].1, own, n);
        let x = gcp::field_refs(front, own);
        let y = gcp::refs_of(o.last().1, own);
        lemma_concat_contains(x, y, n);
        if n != own {
            if x.contains(n) {
                let (i, s) = choose|i: int, s: Seq<char>|
                    0 <= i < front.len() && holds_text((#[trigger] front[i]).1, s)
                        && #[trigger] refers_to(s, n);
                assert(front[i] == o[i]);
                assert(holds_text(o[i].1, s) && refers_to(s, n));
            }
            if y.contains(n) {
                let s = choose|s: Seq<char>|
                    holds_text(o[o.len() - 1].1, s) && #[trigger] refers_to(s, n);
                assert(holds_text(o[o.len() - 1].1, s) && refers_to(s, n));
            }
            if exists|i: int, s: Seq<char>|
                0 <= i < o.len() && holds_text((#[trigger] o[i]).1, s) && #[trigger] refers_to(
                    s,
                    n,
                ) {
                let (i, s) = choose|i: int, s: Seq<char>|
                    0 <= i < o.len() && holds_text((#[trigger] o[i]).1, s) && #[trigger] refers_to(
                        s,
                        n,
                    );
                if i < front.len() {
                    assert(front[i] == o[i]);
                    assert(holds_text(front[i].1, s) && refers_to(s, n));
                } else {
                    assert(holds_text(o[o.len() - 1].1, s) && refers_to(s, n));
                }
            }
        }
    }
}

proof fn lemma_concat_contains<A>(x: Seq<A>, y: Seq<A>, n: A)
    ensures
        (x + y).contains(n) <==> x.contains(n) || y.contains(n),
{
    if x.contains(n) {
        let k = x.index_of(n);
        assert((x + y)[k] == n);
    }
    if y.contains(n) {
        let k = y.index_of(n);
        assert((x + y)[x.len() + k] == n);
    }
    if (x + y).contains(n) {
        let k = (x + y).index_of(n);
        if k < x.len() {
            assert(x[k] == n);
        } else {
            assert(y[k - x.len()] == n);
        }
    }
}

/// Taking each once keeps what there is.
proof fn lemma_once(s: Seq<Seq<char>>, n: Seq<char>)
    ensures
        gcp::once(s).contains(n) <==> s.contains(n),
        gcp::once(s).no_duplicates(),
    decreases s.len(),
{
    if s.len() > 0 {
        let front = s.drop_last();
        let before = gcp::once(front);
        lemma_once(front, n);
        lemma_once(front, s.last());
        if front.contains(n) {
            assert(s[front.index_of(n)] == n);
        }
        if s.contains(n) {
            let k = s.index_of(n);
            if k < front.len() {
                assert(front[k] == n);
            }
        }
        if before.contains(s.last()) {
        } else {
            let r = before.push(s.last());
            if before.contains(n) {
                assert(r[before.index_of(n)] == n);
            }
            assert(r[before.len() as int] == s.last());
            assert(s[s.len() - 1] == s.last());
        }
    }
}

spec fn references_op(src: Seq<char>, dst: Seq<char>, ts: Ts) -> OpV {
    OpV::ObserveEdge { src, dst, kind: "REFERENCES"@, ts, origin: None }
}

/// The mutation is one of the two that a reference brings.
spec fn is_reference_op(name: Seq<char>, refs: Seq<Seq<char>>, ts: Ts, op: OpV) -> bool {
    match op {
        OpV::ObservePlaceholder { name: n, ts: t, origin, .. } => t == ts && origin is None
            && refs.contains(n),
        OpV::ObserveEdge { src, dst, kind, ts: t, origin } => t == ts && origin is None && kind
            == "REFERENCES"@ && src == name && refs.contains(dst),
        _ => false,
    }
}

proof fn lemma_reference_ops(name: Seq<char>, refs: Seq<Seq<char>>, ts: Ts)
    ensures
        forall|k: int|
            0 <= k < gcp::reference_ops(name, refs, ts).len() ==> is_reference_op(
                name,
                refs,
                ts,
                #[trigger] gcp::reference_ops(name, refs, ts)[k],
            ),
        forall|i: int|
            0 <= i < refs.len() ==> gcp::reference_ops(name, refs, ts).contains(
                references_op(name, #[trigger] refs[i], ts),
            ),
    decreases refs.len(),
{
    if refs.len() > 0 {
        let front = refs.drop_last();
        lemma_reference_ops(name, front, ts);
        let a = gcp::reference_ops(name, front, ts);
        let b = gcp::reference_ops(name, refs, ts);
        assert(refs[refs.len() - 1] == refs.last());
        assert forall|n: Seq<char>| front.contains(n) implies #[trigger] refs.contains(n) by {
            assert(refs[front.index_of(n)] == n);
        }
        assert forall|k: int| 0 <= k < b.len() implies is_reference_op(
            name,
            refs,
            ts,
            #[trigger] b[k],
        ) by {
            if k < a.len() {
                assert(b[k] == a[k]);
                assert(is_reference_op(name, front, ts, a[k]));
            }
        }
        assert forall|i: int| 0 <= i < refs.len() implies b.contains(
            references_op(name, #[trigger] refs[i], ts),
        ) by {
            let op = references_op(name, refs[i], ts);
            if i < front.len() {
                assert(front[i] == refs[i]);
                let k = a.index_of(op);
                assert(b[k] == op);
            } else {
                assert(b[b.len() - 1] == op);
            }
        }
    }
}

// ---------------------------------------------------------------------------
// Assets
// ---------------------------------------------------------------------------

/// The document that an asset's data is; null where it has none.
pub open spec fn data_of(a: gcp::AssetV) -> JsonV {
    match a.data {
        Some(d) => d,
        None => JsonV::Null,
    }
}

/// `n` is a resource, other than the asset, that a text in its data names.
pub open spec fn is_reference(a: gcp::AssetV, n: Seq<char>) -> bool {
    n != a.name && exists|s: Seq<char>| holds_text(data_of(a), s) && #[trigger] refers_to(s, n)
}

/// What an asset's mutations are: the asset, then what its ancestors and its
/// references bring.
spec fn is_asset_op(a: gcp::AssetV, ts: Ts, op: OpV) -> bool {
    match op {
        OpV::ObservePlaceholder { name: n, ts: t, origin, .. } => t == ts && origin is None && n
            != a.name,
        OpV::ObserveEdge { src, dst, kind, ts: t, origin } => t == ts && origin is None && ({
            ||| kind == "CONTAINS"@ && exists|j: int| #[trigger]
                is_listed(a.name, a.ancestors, j) && src == container_name(a.ancestors[j])
                    && is_below(a.name, a.ancestors, j, dst)
            ||| kind == "REFERENCES"@ && src == a.name && is_reference(a, dst)
        }),
        _ => false,
    }
}

proof fn lemma_asset_ops(a: gcp::AssetV, ts: Ts)
    ensures
        ({
            let ops = gcp::ops_of(a, ts);
            &&& ops.len() > 0
            &&& ops[0] == (OpV::ObserveNode {
                name: a.name,
                asset_type: a.asset_type,
                props: data_of(a),
                ts,
                origin: None,
            })
            &&& forall|k: int| 0 < k < ops.len() ==> is_asset_op(a, ts, #[trigger] ops[k])
            &&& forall|j: int, below: Seq<char>| #[trigger]
                is_below(a.name, a.ancestors, j, below) && is_listed(a.name, a.ancestors, j)
                    ==> ops.contains(contains_op(container_name(a.ancestors[j]), below, ts))
            &&& forall|n: Seq<char>| #[trigger]
                is_reference(a, n) ==> ops.contains(references_op(a.name, n, ts))
        }),
{
    let ops = gcp::ops_of(a, ts);
    let c = gcp::chain(a.name, a.ancestors, ts).0;
    let all = gcp::refs_of(gcp::props_of(a), a.name);
    let refs = gcp::once(all);
    let r = gcp::reference_ops(a.name, refs, ts);
    lemma_chain(a.name, a.ancestors, ts);
    lemma_reference_ops(a.name, refs, ts);
    assert forall|n: Seq<char>| #[trigger] refs.contains(n) == is_reference(a, n) by {
        lemma_once(all, n);
        lemma_refs(gcp::props_of(a), a.name, n);
    }
    assert forall|k: int| 0 < k < ops.len() implies is_asset_op(a, ts, #[trigger] ops[k]) by {
        if k <= c.len() {
            assert(ops[k] == c[k - 1]);
            assert(is_chain_op(a.name, a.ancestors, ts, c[k - 1]));
        } else {
            assert(ops[k] == r[k - 1 - c.len()]);
            assert(is_reference_op(a.name, refs, ts, r[k - 1 - c.len()]));
            match ops[k] {
                OpV::ObservePlaceholder { name: n, .. } => {
                    assert(refs.contains(n) == is_reference(a, n));
                },
                OpV::ObserveEdge { src, dst, .. } => {
                    assert(refs.contains(dst) == is_reference(a, dst));
                },
                _ => {},
            }
        }
    }
    assert forall|j: int, below: Seq<char>| #[trigger]
        is_below(a.name, a.ancestors, j, below) && is_listed(
            a.name,
            a.ancestors,
            j,
        ) implies ops.contains(contains_op(container_name(a.ancestors[j]), below, ts)) by {
        let op = contains_op(container_name(a.ancestors[j]), below, ts);
        let k = c.index_of(op);
        assert(ops[k + 1] == op);
    }
    assert forall|n: Seq<char>| #[trigger] is_reference(a, n) implies ops.contains(
        references_op(a.name, n, ts),
    ) by {
        assert(refs.contains(n));
        let i = refs.index_of(n);
        let op = references_op(a.name, refs[i], ts);
        assert(r.contains(op));
        let k = r.index_of(op);
        assert(ops[1 + c.len() + k] == op);
    }
}

/// After an asset was ingested, each project, folder or organization that it
/// lists, other than itself, contains the nearest one listed before it, and the
/// first of them contains the asset: an open edge leads from it downwards.
pub proof fn ancestors_contain_what_is_below_them(
    g: GraphV,
    a: gcp::AssetV,
    ts: Ts,
    j: int,
    below: Seq<char>,
)
    requires
        g.wf(),
        snapshot::run(g, gcp::ops_of(a, ts)).1,
        is_listed(a.name, a.ancestors, j),
        is_below(a.name, a.ancestors, j, below),
    ensures
        recording::are_joined(
            snapshot::run(g, gcp::ops_of(a, ts)).0,
            container_name(a.ancestors[j]),
            below,
            "CONTAINS"@,
        ),
{
    lemma_asset_ops(a, ts);
    let ops = gcp::ops_of(a, ts);
    let src = container_name(a.ancestors[j]);
    let op = contains_op(src, below, ts);
    let k = ops.index_of(op);
    assert forall|m: int| k < m < ops.len() implies recording::observes(#[trigger] ops[m]) by {
        assert(is_asset_op(a, ts, ops[m]));
    }
    recording::observed_edge_stays_joined(g, ops, k, src, below, "CONTAINS"@, ts, None);
}

/// `to` is reached from `from` over `d` open containment edges.
pub open spec fn leads_down(g: GraphV, from: Seq<char>, to: Seq<char>, d: nat) -> bool
    decreases d,
{
    if d == 0 {
        from == to
    } else {
        exists|mid: Seq<char>|
            #[trigger] recording::are_joined(g, from, mid, "CONTAINS"@) && leads_down(
                g,
                mid,
                to,
                (d - 1) as nat,
            )
    }
}

/// An asset that was ingested lies within reach, downwards, of each of the
/// projects, folders and organizations that it lists.
pub proof fn asset_is_within_reach_of_its_ancestors(g: GraphV, a: gcp::AssetV, ts: Ts, j: int) -> (d:
    nat)
    requires
        g.wf(),
        snapshot::run(g, gcp::ops_of(a, ts)).1,
        is_listed(a.name, a.ancestors, j),
    ensures
        0 < d <= j + 1,
        leads_down(
            snapshot::run(g, gcp::ops_of(a, ts)).0,
            container_name(a.ancestors[j]),
            a.name,
            d,
        ),
    decreases j,
{
    let h = snapshot::run(g, gcp::ops_of(a, ts)).0;
    let from = container_name(a.ancestors[j]);
    if exists|i: int| is_nearest(a.name, a.ancestors, j, i) {
        let i = choose|i: int| is_nearest(a.name, a.ancestors, j, i);
        let mid = container_name(a.ancestors[i]);
        assert(is_below(a.name, a.ancestors, j, mid));
        ancestors_contain_what_is_below_them(g, a, ts, j, mid);
        let d = asset_is_within_reach_of_its_ancestors(g, a, ts, i);
        assert(leads_down(h, mid, a.name, d));
        assert(leads_down(h, from, a.name, d + 1));
        d + 1
    } else {
        assert forall|i: int| 0 <= i < j implies !#[trigger] is_listed(
            a.name,
            a.ancestors,
            i,
        ) by {
            if is_listed(a.name, a.ancestors, i) {
                lemma_some_nearest(a.name, a.ancestors, j, i);
            }
        }
        ancestors_contain_what_is_below_them(g, a, ts, j, a.name);
        assert(leads_down(h, a.name, a.name, 0));
        assert(leads_down(h, from, a.name, 1));
        1
    }
}

/// Where an ancestor is listed before another, one is the nearest.
proof fn lemma_some_nearest(name: Seq<char>, ancestors: Seq<Seq<char>>, j: int, i: int)
    requires
        is_listed(name, ancestors, i),
        i < j,
    ensures
        exists|k: int| is_nearest(name, ancestors, j, k),
    decreases j - i,
{
    if forall|k: int| i < k < j ==> !#[trigger] is_listed(name, ancestors, k) {
        assert(is_nearest(name, ancestors, j, i));
    } else {
        let k = choose|k: int| i < k < j && #[trigger] is_listed(name, ancestors, k);
        lemma_some_nearest(name, ancestors, j, k);
    }
}

/// After an asset was ingested, it points at every resource that a text in its
/// data names, at whatever depth, other than itself.
pub proof fn asset_points_at_what_its_data_names(g: GraphV, a: gcp::AssetV, ts: Ts, n: Seq<char>)
    requires
        g.wf(),
        snapshot::run(g, gcp::ops_of(a, ts)).1,
        is_reference(a, n),
    ensures
        recording::are_joined(
            snapshot::run(g, gcp::ops_of(a, ts)).0,
            a.name,
            n,
            "REFERENCES"@,
        ),
{
    lemma_asset_ops(a, ts);
    let ops = gcp::ops_of(a, ts);
    let op = references_op(a.name, n, ts);
    let k = ops.index_of(op);
    assert forall|m: int| k < m < ops.len() implies recording::observes(#[trigger] ops[m]) by {
        assert(is_asset_op(a, ts, ops[m]));
    }
    recording::observed_edge_stays_joined(g, ops, k, a.name, n, "REFERENCES"@, ts, None);
}

/// An asset brings no other edge: what is joined after it was ingested was
/// joined before, or is a container and what is below it, or the asset and a
/// resource that its data names.
pub proof fn asset_brings_no_other_edge(
    g: GraphV,
    a: gcp::AssetV,
    ts: Ts,
    i: int,
    src: Seq<char>,
    dst: Seq<char>,
    kind: Seq<char>,
)
    requires
        g.wf(),
        recording::joined(snapshot::run(g, gcp::ops_of(a, ts)).0, i, src, dst, kind),
    ensures
        ({
            ||| recording::joined(g, i, src, dst, kind)
            ||| kind == "CONTAINS"@ && exists|j: int| #[trigger]
                is_listed(a.name, a.ancestors, j) && src == container_name(a.ancestors[j])
                    && is_below(a.name, a.ancestors, j, dst)
            ||| kind == "REFERENCES"@ && src == a.name && is_reference(a, dst)
        }),
{
    lemma_asset_ops(a, ts);
    let ops = gcp::ops_of(a, ts);
    recording::what_is_joined_was_observed(g, ops, i, src, dst, kind);
    if !recording::joined(g, i, src, dst, kind) {
        let k = choose|k: int|
            0 <= k < ops.len() && recording::joins(#[trigger] ops[k], src, dst, kind);
        assert(is_asset_op(a, ts, ops[k]));
    }
}

/// A mention, or an edge, leaves a node that stands as it is.
proof fn lemma_mention_keeps(g: GraphV, op: OpV, m: int)
    requires
        g.wf(),
        g.accepts(op),
        op is ObservePlaceholder || op is ObserveEdge,
        0 <= m < g.nodes.len(),
        recording::stands(g.nodes[m]),
    ensures
        g.apply(op).wf(),
        m < g.apply(op).nodes.len(),
        g.apply(op).nodes[m] == g.nodes[m],
        history::grew(g, g.apply(op)),
{
    history::history_is_append_only(g, op);
    match op {
        OpV::ObservePlaceholder { name, inferred_type, ts, origin } => {
            let n = recording::mentioning_a_node_makes_it_stand(
                g,
                name,
                inferred_type,
                ts,
                origin,
            );
            if n == m {
                assert(g.ids[g.nodes[m].name] == m);
            }
        },
        _ => {
            recording::other_nodes_are_left_alone(g, op, m);
        },
    }
}

/// Mentions and edges leave a node that stands as it is, however many.
proof fn lemma_mentions_keep(g: GraphV, ops: Seq<OpV>, k: int, m: int)
    requires
        g.wf(),
        snapshot::run(g, ops).1,
        0 <= k <= ops.len(),
        forall|j: int|
            k <= j < ops.len() ==> (#[trigger] ops[j]) is ObservePlaceholder || ops[j] is ObserveEdge,
        0 <= m < snapshot::run(g, ops.take(k)).0.nodes.len(),
        recording::stands(snapshot::run(g, ops.take(k)).0.nodes[m]),
    ensures
        ({
            let b = snapshot::run(g, ops.take(k)).0;
            let h = snapshot::run(g, ops).0;
            &&& h.wf()
            &&& m < h.nodes.len()
            &&& h.nodes[m] == b.nodes[m]
            &&& b.types.is_prefix_of(h.types)
            &&& b.origins.is_prefix_of(h.origins)
        }),
    decreases ops.len() - k,
{
    history::running_only_adds(g, ops);
    if k == ops.len() {
        assert(ops.take(k) =~= ops);
    } else {
        let front = ops.drop_last();
        assert(front.take(k) =~= ops.take(k));
        assert forall|j: int| k <= j < front.len() implies (#[trigger] front[j]) is ObservePlaceholder
            || front[j] is ObserveEdge by {
            assert(front[j] == ops[j]);
        }
        lemma_mentions_keep(g, front, k, m);
        assert(ops[ops.len() - 1] == ops.last());
        lemma_mention_keeps(snapshot::run(g, front).0, ops.last(), m);
    }
}

/// What is observed first stands as it was observed while mentions and edges
/// follow.
proof fn lemma_observed_first(
    g: GraphV,
    ops: Seq<OpV>,
    name: Seq<char>,
    ty: Seq<char>,
    props: JsonV,
    ts: Ts,
    origin: Option<Seq<char>>,
) -> (m: int)
    requires
        g.wf(),
        snapshot::run(g, ops).1,
        ops.len() > 0,
        ops[0] == (OpV::ObserveNode { name, asset_type: ty, props, ts, origin }),
        forall|j: int|
            1 <= j < ops.len() ==> (#[trigger] ops[j]) is ObservePlaceholder || ops[j] is ObserveEdge,
    ensures
        ({
            let h = snapshot::run(g, ops).0;
            let v = h.nodes[m].versions.last();
            let hash = model::text_hash(json::canonical_text(props));
            &&& recording::called(h, m, name)
            &&& !h.nodes[m].placeholder
            &&& recording::stands(h.nodes[m])
            &&& v.props_hash == hash
            &&& (forall|i: int| !recording::called(g, i, name)) ==> {
                &&& h.types[h.nodes[m].type_id as int] == ty
                &&& h.nodes[m].versions.len() == 1
                &&& recording::version_since(
                    h,
                    v,
                    ts,
                    json::canonical_text(props),
                    hash,
                    recording::label_text(origin),
                )
            }
        }),
{
    let first = ops.take(1);
    assert(first.drop_last() =~= Seq::<OpV>::empty());
    assert(first.last() == ops[0]);
    recording::lemma_run_prefix(g, ops, 0);
    recording::lemma_run_prefix(g, ops, 1);
    assert(ops.take(0) =~= Seq::<OpV>::empty());
    assert(snapshot::run(g, Seq::<OpV>::empty()) == (g, true));
    let b = snapshot::run(g, first).0;
    assert(b == g.apply(ops[0]));
    let m = recording::observing_a_node_records_its_properties(g, name, ty, props, ts, origin);
    history::history_is_append_only(g, ops[0]);
    lemma_mentions_keep(g, ops, 1, m);
    assert(b.nodes[m].type_id < b.types.len());
    assert(b.nodes[m].versions[b.nodes[m].versions.len() - 1].origin_id < b.origins.len());
    m
}

/// After an asset was ingested, it is an observed node that stands with its
/// data; where it was not known, it has its type and stands since then, with no
/// label.
pub proof fn asset_is_recorded(g: GraphV, a: gcp::AssetV, ts: Ts) -> (m: int)
    requires
        g.wf(),
        snapshot::run(g, gcp::ops_of(a, ts)).1,
    ensures
        ({
            let h = snapshot::run(g, gcp::ops_of(a, ts)).0;
            let v = h.nodes[m].versions.last();
            let hash = model::text_hash(json::canonical_text(data_of(a)));
            &&& recording::called(h, m, a.name)
            &&& !h.nodes[m].placeholder
            &&& recording::stands(h.nodes[m])
            &&& v.props_hash == hash
            &&& (forall|i: int| !recording::called(g, i, a.name)) ==> {
                &&& h.types[h.nodes[m].type_id as int] == a.asset_type
                &&& h.nodes[m].versions.len() == 1
                &&& recording::version_since(
                    h,
                    v,
                    ts,
                    json::canonical_text(data_of(a)),
                    hash,
                    Seq::empty(),
                )
            }
        }),
{
    lemma_asset_ops(a, ts);
    let ops = gcp::ops_of(a, ts);
    assert forall|j: int| 1 <= j < ops.len() implies (#[trigger] ops[j]) is ObservePlaceholder
        || ops[j] is ObserveEdge by {
        assert(is_asset_op(a, ts, ops[j]));
    }
    lemma_observed_first(g, ops, a.name, a.asset_type, data_of(a), ts, None)
}

/// An asset asserts itself, and then the containers that it lists, in order.
pub proof fn asset_asserts_itself_and_its_ancestors(a: gcp::AssetV, ts: Ts)
    ensures
        ({
            let names = gcp::names_of(a, ts);
            &&& names.len() > 0
            &&& names[0] == a.name
            &&& moments::lists(
                names.skip(1),
                a.ancestors.len(),
                |j: int| is_listed(a.name, a.ancestors, j),
                |j: int| container_name(a.ancestors[j]),
            )
        }),
{
    let c = gcp::chain(a.name, a.ancestors, ts).1;
    assert(gcp::names_of(a, ts).skip(1) =~= c);
    let at = lemma_chain_names(a.name, a.ancestors, ts);
}

proof fn lemma_chain_names(name: Seq<char>, ancestors: Seq<Seq<char>>, ts: Ts) -> (at: Seq<int>)
    ensures
        moments::listed_at(
            at,
            gcp::chain(name, ancestors, ts).1,
            ancestors.len(),
            |j: int| is_listed(name, ancestors, j),
            |j: int| container_name(ancestors[j]),
        ),
    decreases ancestors.len(),
{
    if ancestors.len() == 0 {
        Seq::empty()
    } else {
        let front = ancestors.drop_last();
        let last = ancestors.len() - 1;
        let before = lemma_chain_names(name, front, ts);
        lemma_container(ancestors[last]);
        let chosen = |j: int| is_listed(name, ancestors, j);
        let earlier = |j: int| is_listed(name, front, j);
        let at = if chosen(last) {
            before.push(last)
        } else {
            before
        };
        let c = gcp::chain(name, ancestors, ts).1;
        let b = gcp::chain(name, front, ts).1;
        assert forall|i: int| 0 <= i < ancestors.len() && #[trigger] chosen(
            i,
        ) implies at.contains(i) by {
            if i < last {
                assert(front[i] == ancestors[i]);
                assert(earlier(i));
                let k = before.index_of(i);
                assert(at[k] == i);
            } else {
                assert(at[at.len() - 1] == i);
            }
        }
        assert forall|k: int| 0 <= k < at.len() implies 0 <= (#[trigger] at[k]) < ancestors.len()
            && chosen(at[k]) && c[k] == container_name(ancestors[at[k]]) by {
            if k < before.len() {
                assert(at[k] == before[k]);
                assert(earlier(before[k]));
                assert(front[before[k]] == ancestors[before[k]]);
                assert(b[k] == container_name(front[before[k]]));
            }
        }
        at
    }
}

// ---------------------------------------------------------------------------
// Entities
// ---------------------------------------------------------------------------

/// The label of what an entity asserts: its own, or else that of the batch.
pub open spec fn entity_label(e: entity::EntityV, origin: Option<Seq<char>>) -> Seq<char> {
    match (e.origin, origin) {
        (Some(own), _) => own,
        (None, Some(o)) => o,
        (None, None) => Seq::empty(),
    }
}

/// Entity `e` lists an edge of that kind to `dst`.
pub open spec fn lists_edge(e: entity::EntityV, dst: Seq<char>, kind: Seq<char>) -> bool {
    exists|i: int|
        0 <= i < e.edges.len() && (#[trigger] e.edges[i]).dst == dst && e.edges[i].kind == kind
}

/// The mutation is one of the two that an edge of an entity brings.
spec fn is_entity_op(
    name: Seq<char>,
    edges: Seq<entity::EntityEdgeV>,
    ts: Ts,
    origin: Option<Seq<char>>,
    op: OpV,
) -> bool {
    match op {
        OpV::ObservePlaceholder { name: n, ts: t, origin: o, .. } => t == ts && o == origin
            && exists|i: int| 0 <= i < edges.len() && (#[trigger] edges[i]).dst == n,
        OpV::ObserveEdge { src, dst, kind, ts: t, origin: o } => t == ts && o == origin && src
            == name && exists|i: int|
            0 <= i < edges.len() && (#[trigger] edges[i]).dst == dst && edges[i].kind == kind,
        _ => false,
    }
}

proof fn lemma_entity_edges(
    name: Seq<char>,
    edges: Seq<entity::EntityEdgeV>,
    ts: Ts,
    origin: Option<Seq<char>>,
)
    ensures
        forall|k: int|
            0 <= k < entity::edge_ops(name, edges, ts, origin).len() ==> is_entity_op(
                name,
                edges,
                ts,
                origin,
                #[trigger] entity::edge_ops(name, edges, ts, origin)[k],
            ),
        forall|i: int|
            0 <= i < edges.len() ==> entity::edge_ops(name, edges, ts, origin).contains(
                OpV::ObserveEdge {
                    src: name,
                    dst: (#[trigger] edges[i]).dst,
                    kind: edges[i].kind,
                    ts,
                    origin,
                },
            ),
    decreases edges.len(),
{
    if edges.len() > 0 {
        let front = edges.drop_last();
        lemma_entity_edges(name, front, ts, origin);
        let a = entity::edge_ops(name, front, ts, origin);
        let b = entity::edge_ops(name, edges, ts, origin);
        assert(edges[edges.len() - 1] == edges.last());
        assert forall|k: int| 0 <= k < b.len() implies is_entity_op(
            name,
            edges,
            ts,
            origin,
            #[trigger] b[k],
        ) by {
            if k < a.len() {
                assert(b[k] == a[k]);
                assert(is_entity_op(name, front, ts, origin, a[k]));
                match a[k] {
                    OpV::ObservePlaceholder { name: n, .. } => {
                        let i = choose|i: int|
                            0 <= i < front.len() && (#[trigger] front[i]).dst == n;
                        assert(edges[i] == front[i]);
                    },
                    OpV::ObserveEdge { src, dst, kind, .. } => {
                        let i = choose|i: int|
                            0 <= i < front.len() && (#[trigger] front[i]).dst == dst
                                && front[i].kind == kind;
                        assert(edges[i] == front[i]);
                    },
                    _ => {},
                }
            }
        }
        assert forall|i: int| 0 <= i < edges.len() implies b.contains(
            OpV::ObserveEdge {
                src: name,
                dst: (#[trigger] edges[i]).dst,
                kind: edges[i].kind,
                ts,
                origin,
            },
        ) by {
            let op = OpV::ObserveEdge {
                src: name,
                dst: edges[i].dst,
                kind: edges[i].kind,
                ts,
                origin,
            };
            if i < front.len() {
                assert(front[i] == edges[i]);
                let k = a.index_of(op);
                assert(b[k] == op);
            } else {
                assert(b[b.len() - 1] == op);
            }
        }
    }
}

/// After an entity was ingested, it is joined to the target of every edge that
/// it lists; where it was not, since then and with the entity's label.
pub proof fn entity_holds_the_edges_that_it_lists(
    g: GraphV,
    e: entity::EntityV,
    ts: Ts,
    origin: Option<Seq<char>>,
    dst: Seq<char>,
    kind: Seq<char>,
)
    requires
        g.wf(),
        snapshot::run(g, entity::ops_of(e, ts, origin)).1,
        lists_edge(e, dst, kind),
    ensures
        ({
            let h = snapshot::run(g, entity::ops_of(e, ts, origin)).0;
            &&& recording::are_joined(h, e.name, dst, kind)
            &&& !recording::are_joined(g, e.name, dst, kind) ==> exists|i: int| #[trigger]
                recording::joined_since(h, i, e.name, dst, kind, ts, entity_label(e, origin))
        }),
{
    let o = entity::label_of(e, origin);
    let ops = entity::ops_of(e, ts, origin);
    let rest = entity::edge_ops(e.name, e.edges, ts, o);
    lemma_entity_edges(e.name, e.edges, ts, o);
    assert forall|m: int| 0 <= m < ops.len() implies recording::observes(#[trigger] ops[m]) by {
        if m > 0 {
            assert(ops[m] == rest[m - 1]);
            assert(is_entity_op(e.name, e.edges, ts, o, rest[m - 1]));
        }
    }
    let i = choose|i: int|
        0 <= i < e.edges.len() && (#[trigger] e.edges[i]).dst == dst && e.edges[i].kind == kind;
    let op = OpV::ObserveEdge { src: e.name, dst: e.edges[i].dst, kind: e.edges[i].kind, ts, origin: o };
    assert(rest.contains(op));
    let k = rest.index_of(op);
    assert(ops[k + 1] == op);
    recording::observed_edge_stays_joined(g, ops, k + 1, e.name, dst, kind, ts, o);
    let h = snapshot::run(g, ops).0;
    let j = choose|j: int| recording::joined(h, j, e.name, dst, kind);
    recording::what_is_joined_was_observed(g, ops, j, e.name, dst, kind);
    if !recording::are_joined(g, e.name, dst, kind) {
        assert(!recording::joined(g, j, e.name, dst, kind));
        let m = choose|m: int|
            0 <= m < ops.len() && recording::joins(#[trigger] ops[m], e.name, dst, kind)
                && recording::joins_since(
                ops[m],
                h.edges[j].valid_from,
                h.origins[h.edges[j].origin_id as int],
            );
        if m > 0 {
            assert(ops[m] == rest[m - 1]);
            assert(is_entity_op(e.name, e.edges, ts, o, rest[m - 1]));
        }
        assert(recording::joined_since(h, j, e.name, dst, kind, ts, entity_label(e, origin)));
    }
}

/// An entity brings no other edge than those that it lists, and all of them
/// leave it.
pub proof fn entity_brings_no_other_edge(
    g: GraphV,
    e: entity::EntityV,
    ts: Ts,
    origin: Option<Seq<char>>,
    i: int,
    src: Seq<char>,
    dst: Seq<char>,
    kind: Seq<char>,
)
    requires
        g.wf(),
        recording::joined(snapshot::run(g, entity::ops_of(e, ts, origin)).0, i, src, dst, kind),
    ensures
        recording::joined(g, i, src, dst, kind) || (src == e.name && lists_edge(e, dst, kind)),
{
    let o = entity::label_of(e, origin);
    let ops = entity::ops_of(e, ts, origin);
    let rest = entity::edge_ops(e.name, e.edges, ts, o);
    lemma_entity_edges(e.name, e.edges, ts, o);
    recording::what_is_joined_was_observed(g, ops, i, src, dst, kind);
    if !recording::joined(g, i, src, dst, kind) {
        let k = choose|k: int|
            0 <= k < ops.len() && recording::joins(#[trigger] ops[k], src, dst, kind);
        assert(k > 0);
        assert(ops[k] == rest[k - 1]);
        assert(is_entity_op(e.name, e.edges, ts, o, rest[k - 1]));
    }
}

/// After an entity was ingested, it is an observed node that stands with its
/// properties; where it was not known, it has its type and stands since then,
/// with its label.
pub proof fn entity_is_recorded(
    g: GraphV,
    e: entity::EntityV,
    ts: Ts,
    origin: Option<Seq<char>>,
) -> (m: int)
    requires
        g.wf(),
        snapshot::run(g, entity::ops_of(e, ts, origin)).1,
    ensures
        ({
            let h = snapshot::run(g, entity::ops_of(e, ts, origin)).0;
            let v = h.nodes[m].versions.last();
            let hash = model::text_hash(json::canonical_text(e.props));
            &&& recording::called(h, m, e.name)
            &&& !h.nodes[m].placeholder
            &&& recording::stands(h.nodes[m])
            &&& v.props_hash == hash
            &&& (forall|i: int| !recording::called(g, i, e.name)) ==> {
                &&& h.types[h.nodes[m].type_id as int] == e.entity_type
                &&& h.nodes[m].versions.len() == 1
                &&& recording::version_since(
                    h,
                    v,
                    ts,
                    json::canonical_text(e.props),
                    hash,
                    entity_label(e, origin),
                )
            }
        }),
{
    let o = entity::label_of(e, origin);
    let ops = entity::ops_of(e, ts, origin);
    let rest = entity::edge_ops(e.name, e.edges, ts, o);
    lemma_entity_edges(e.name, e.edges, ts, o);
    assert forall|j: int| 1 <= j < ops.len() implies (#[trigger] ops[j]) is ObservePlaceholder
        || ops[j] is ObserveEdge by {
        assert(ops[j] == rest[j - 1]);
        assert(is_entity_op(e.name, e.edges, ts, o, rest[j - 1]));
    }
    lemma_observed_first(g, ops, e.name, e.entity_type, e.props, ts, o)
}

// ---------------------------------------------------------------------------
// Whole snapshots
// ---------------------------------------------------------------------------

/// Where the mutations of one asset stand among those of several.
proof fn lemma_assets_ops(assets: Seq<gcp::AssetV>, ts: Ts)
    ensures
        ({
            let ops = gcp::all_ops(assets, ts);
            &&& forall|k: int| 0 <= k < ops.len() ==> recording::observes(#[trigger] ops[k])
            &&& forall|m: int, op: OpV|
                0 <= m < assets.len() && #[trigger] gcp::ops_of(assets[m], ts).contains(op)
                    ==> ops.contains(op)
        }),
    decreases assets.len(),
{
    if assets.len() > 0 {
        let front = assets.drop_last();
        let last = assets.last();
        lemma_assets_ops(front, ts);
        lemma_asset_ops(last, ts);
        let a = gcp::all_ops(front, ts);
        let b = gcp::ops_of(last, ts);
        let ops = gcp::all_ops(assets, ts);
        assert(assets[assets.len() - 1] == last);
        assert forall|k: int| 0 <= k < ops.len() implies recording::observes(
            #[trigger] ops[k],
        ) by {
            if k < a.len() {
                assert(ops[k] == a[k]);
            } else {
                let q = k - a.len();
                assert(ops[k] == b[q]);
                if q > 0 {
                    assert(is_asset_op(last, ts, b[q]));
                }
            }
        }
        assert forall|m: int, op: OpV|
            0 <= m < assets.len() && #[trigger] gcp::ops_of(assets[m], ts).contains(
                op,
            ) implies ops.contains(op) by {
            lemma_concat_contains(a, b, op);
            if m < front.len() {
                assert(front[m] == assets[m]);
                assert(gcp::ops_of(front[m], ts).contains(op));
            }
        }
    }
}

/// What a snapshot of assets asserts: each asset and the containers that it
/// lists, and no other name.
pub proof fn snapshot_asserts_assets_and_ancestors(
    assets: Seq<gcp::AssetV>,
    ts: Ts,
    name: Seq<char>,
)
    ensures
        gcp::all_names(assets, ts).contains(name) <==> exists|m: int| #[trigger]
            asserts_name(assets, m, name),
    decreases assets.len(),
{
    if assets.len() > 0 {
        let front = assets.drop_last();
        let last = assets.last();
        let own = gcp::names_of(last, ts);
        snapshot_asserts_assets_and_ancestors(front, ts, name);
        asset_asserts_itself_and_its_ancestors(last, ts);
        assert(assets[assets.len() - 1] == last);
        assert forall|m: int| 0 <= m < front.len() implies #[trigger] asserts_name(front, m, name)
            == asserts_name(assets, m, name) by {
            assert(front[m] == assets[m]);
        }
        let c = gcp::chain(last.name, last.ancestors, ts).1;
        let at = lemma_chain_names(last.name, last.ancestors, ts);
        let chosen = |j: int| is_listed(last.name, last.ancestors, j);
        assert(own.contains(name) <==> asserts_name(assets, assets.len() - 1, name)) by {
            if own.contains(name) {
                let k = own.index_of(name);
                if k > 0 {
                    assert(c[k - 1] == name);
                    assert(chosen(at[k - 1]));
                    assert(name == container_name(last.ancestors[at[k - 1]]));
                }
            }
            if asserts_name(assets, assets.len() - 1, name) {
                if name == last.name {
                    assert(own[0] == name);
                } else {
                    let j = choose|j: int| #[trigger]
                        is_listed(last.name, last.ancestors, j) && name == container_name(
                            last.ancestors[j],
                        );
                    assert(chosen(j));
                    let k = at.index_of(j);
                    assert(c[k] == name);
                    assert(own[k + 1] == name);
                }
            }
        }
        if exists|m: int| #[trigger] asserts_name(assets, m, name) {
            let m = choose|m: int| #[trigger] asserts_name(assets, m, name);
            if m < front.len() {
                assert(asserts_name(front, m, name));
            }
        }
        if exists|m: int| #[trigger] asserts_name(front, m, name) {
            let m = choose|m: int| #[trigger] asserts_name(front, m, name);
            assert(asserts_name(assets, m, name));
        }
    }
}

/// Asset `m` is called `name` or lists a container that is.
pub open spec fn asserts_name(assets: Seq<gcp::AssetV>, m: int, name: Seq<char>) -> bool {
    &&& 0 <= m < assets.len()
    &&& name == assets[m].name || exists|j: int| #[trigger]
        is_listed(assets[m].name, assets[m].ancestors, j) && name == container_name(
            assets[m].ancestors[j],
        )
}

/// Observations keep one open record for a relation.
proof fn lemma_run_one_open(g: GraphV, ops: Seq<OpV>)
    requires
        g.wf(),
        history::one_open_record(g),
        forall|k: int| 0 <= k < ops.len() ==> recording::observes(#[trigger] ops[k]),
    ensures
        snapshot::run(g, ops).0.wf(),
        history::one_open_record(snapshot::run(g, ops).0),
    decreases ops.len(),
{
    history::running_only_adds(g, ops);
    if ops.len() > 0 {
        let front = ops.drop_last();
        assert forall|k: int| 0 <= k < front.len() implies recording::observes(
            #[trigger] front[k],
        ) by {
            assert(front[k] == ops[k]);
        }
        lemma_run_one_open(g, front);
        let (m, ok) = snapshot::run(g, front);
        assert(recording::observes(ops[ops.len() - 1]));
        if ok && m.accepts(ops.last()) {
            history::relation_has_one_open_record(m, ops.last());
        }
    }
}

/// An edge that a snapshot asserts is open after its ingestion, unless the
/// snapshot misses an end of it.
pub proof fn snapshot_holds_what_it_asserts(
    g: GraphV,
    ops: Seq<OpV>,
    names: Set<Seq<char>>,
    ts: Ts,
    src: Seq<char>,
    dst: Seq<char>,
    kind: Seq<char>,
)
    requires
        g.wf(),
        history::one_open_record(g),
        ts < T_MAX,
        snapshot::run(g, ops).1,
        forall|k: int| 0 <= k < ops.len() ==> recording::observes(#[trigger] ops[k]),
        reconciling::is_asserted(ops, src, dst, kind),
        forall|n: int|
            0 <= n < snapshot::run(g, ops).0.nodes.len() && ((
            #[trigger] snapshot::run(g, ops).0.nodes[n]).name == src || snapshot::run(
                g,
                ops,
            ).0.nodes[n].name == dst) ==> !reconciling::is_missed(
                snapshot::run(g, ops).0.nodes[n],
                names,
                ts,
            ),
    ensures
        recording::are_joined(
            snapshot::ingested(g, ops, names, ts, true).0,
            src,
            dst,
            kind,
        ),
        recording::are_joined(
            snapshot::ingested(g, ops, names, ts, false).0,
            src,
            dst,
            kind,
        ),
{
    let m = snapshot::run(g, ops).0;
    let k = choose|k: int|
        0 <= k < ops.len() && recording::joins(#[trigger] ops[k], src, dst, kind);
    match ops[k] {
        OpV::ObserveEdge { src: s, dst: d, kind: q, ts: t, origin } => {
            recording::observed_edge_stays_joined(g, ops, k, s, d, q, t, origin);
        },
        _ => {},
    }
    let i = choose|i: int| recording::joined(m, i, src, dst, kind);
    lemma_run_one_open(g, ops);
    reconciling::snapshot_ends_what_it_does_not_confirm(m, ops, names, ts);
    let h = snapshot::reconciled(m, ops, names, ts).0;
    let e = m.edges[i];
    assert(!reconciling::is_missed(m.nodes[e.src as int], names, ts));
    assert(!reconciling::is_missed(m.nodes[e.dst as int], names, ts));
    assert(!reconciling::loses(m, ops, names, ts, i));
    assert(h.edges[i] == e);
    assert(h.nodes[e.src as int].name == m.nodes[e.src as int].name);
    assert(h.nodes[e.dst as int].name == m.nodes[e.dst as int].name);
    assert(h.kinds == m.kinds) by {
        lemma_reconciled_kinds(m, ops, names, ts);
    }
    assert(recording::joined(h, i, src, dst, kind));
}

proof fn lemma_reconciled_kinds(g: GraphV, ops: Seq<OpV>, names: Set<Seq<char>>, ts: Ts)
    requires
        g.wf(),
        history::one_open_record(g),
        ts < T_MAX,
    ensures
        snapshot::reconciled(g, ops, names, ts).0.kinds == g.kinds,
{
    let srcs = snapshot::observed(ops);
    let rs = snapshot::all_stale_edges(g, ops, srcs, ts);
    reconciling::lemma_stale_apply(g, ops, srcs, ts);
    let m = g.apply_all(rs);
    reconciling::retiring_nodes_ends_them_and_their_edges(
        m,
        query::named(m, query::stale(names, ts)),
        ts,
    );
}

/// After a complete snapshot of assets was ingested, each of them lies below its
/// ancestors: each container that it lists contains the nearest one listed
/// before it, and the first of them contains the asset.
pub proof fn snapshot_keeps_assets_below_their_ancestors(
    g: GraphV,
    assets: Seq<gcp::AssetV>,
    ts: Ts,
    m: int,
    j: int,
    below: Seq<char>,
)
    requires
        g.wf(),
        history::one_open_record(g),
        ts < T_MAX,
        snapshot::run(g, gcp::all_ops(assets, ts)).1,
        0 <= m < assets.len(),
        is_listed(assets[m].name, assets[m].ancestors, j),
        is_below(assets[m].name, assets[m].ancestors, j, below),
    ensures
        recording::are_joined(
            snapshot::ingested(
                g,
                gcp::all_ops(assets, ts),
                gcp::all_names(assets, ts),
                ts,
                true,
            ).0,
            container_name(assets[m].ancestors[j]),
            below,
            "CONTAINS"@,
        ),
{
    let a = assets[m];
    let ops = gcp::all_ops(assets, ts);
    let names = gcp::all_names(assets, ts);
    let src = container_name(a.ancestors[j]);
    let op = contains_op(src, below, ts);
    lemma_asset_ops(a, ts);
    lemma_assets_ops(assets, ts);
    assert(gcp::ops_of(assets[m], ts).contains(op));
    let k = ops.index_of(op);
    assert(recording::joins(ops[k], src, below, "CONTAINS"@));
    snapshot_asserts_assets_and_ancestors(assets, ts, src);
    assert(asserts_name(assets, m, src));
    snapshot_asserts_assets_and_ancestors(assets, ts, below);
    assert(asserts_name(assets, m, below)) by {
        if below != a.name {
            let i = choose|i: int| #[trigger]
                is_nearest(a.name, a.ancestors, j, i) && below == container_name(a.ancestors[i]);
            assert(is_listed(a.name, a.ancestors, i));
        }
    }
    snapshot_holds_what_it_asserts(g, ops, names, ts, src, below, "CONTAINS"@);
}

/// Where the mutations of one entity stand among those of several.
proof fn lemma_entities_ops(es: Seq<entity::EntityV>, ts: Ts, origin: Option<Seq<char>>)
    ensures
        ({
            let ops = entity::all_ops(es, ts, origin);
            &&& forall|k: int| 0 <= k < ops.len() ==> recording::observes(#[trigger] ops[k])
            &&& forall|m: int, op: OpV|
                0 <= m < es.len() && #[trigger] entity::ops_of(es[m], ts, origin).contains(op)
                    ==> ops.contains(op)
        }),
    decreases es.len(),
{
    if es.len() > 0 {
        let front = es.drop_last();
        let last = es.last();
        let o = entity::label_of(last, origin);
        lemma_entities_ops(front, ts, origin);
        lemma_entity_edges(last.name, last.edges, ts, o);
        let rest = entity::edge_ops(last.name, last.edges, ts, o);
        let a = entity::all_ops(front, ts, origin);
        let b = entity::ops_of(last, ts, origin);
        let ops = entity::all_ops(es, ts, origin);
        assert(es[es.len() - 1] == last);
        assert forall|k: int| 0 <= k < ops.len() implies recording::observes(
            #[trigger] ops[k],
        ) by {
            if k < a.len() {
                assert(ops[k] == a[k]);
            } else {
                let q = k - a.len();
                assert(ops[k] == b[q]);
                if q > 0 {
                    assert(b[q] == rest[q - 1]);
                    assert(is_entity_op(last.name, last.edges, ts, o, rest[q - 1]));
                }
            }
        }
        assert forall|m: int, op: OpV|
            0 <= m < es.len() && #[trigger] entity::ops_of(es[m], ts, origin).contains(
                op,
            ) implies ops.contains(op) by {
            lemma_concat_contains(a, b, op);
            if m < front.len() {
                assert(front[m] == es[m]);
                assert(entity::ops_of(front[m], ts, origin).contains(op));
            }
        }
    }
}

/// A batch of entities asserts the names of its entities and no others.
pub proof fn batch_asserts_its_entities(es: Seq<entity::EntityV>, name: Seq<char>)
    ensures
        entity::all_names(es).contains(name) <==> exists|k: int|
            0 <= k < es.len() && (#[trigger] es[k]).name == name,
{
    let l = es.map_values(|e: entity::EntityV| e.name);
    if entity::all_names(es).contains(name) {
        let k = l.index_of(name);
        assert(es[k].name == name);
    }
    if exists|k: int| 0 <= k < es.len() && (#[trigger] es[k]).name == name {
        let k = choose|k: int| 0 <= k < es.len() && (#[trigger] es[k]).name == name;
        assert(l[k] == name);
    }
}

/// After a batch of entities was ingested, as a complete snapshot or not, each of
/// them is joined to the target of every edge that it lists, unless the target is
/// an observed node that the batch does not assert.
pub proof fn batch_holds_the_edges_of_its_entities(
    g: GraphV,
    es: Seq<entity::EntityV>,
    ts: Ts,
    origin: Option<Seq<char>>,
    m: int,
    dst: Seq<char>,
    kind: Seq<char>,
)
    requires
        g.wf(),
        history::one_open_record(g),
        ts < T_MAX,
        snapshot::run(g, entity::all_ops(es, ts, origin)).1,
        0 <= m < es.len(),
        lists_edge(es[m], dst, kind),
        forall|n: int|
            0 <= n < snapshot::run(g, entity::all_ops(es, ts, origin)).0.nodes.len() && (
            #[trigger] snapshot::run(g, entity::all_ops(es, ts, origin)).0.nodes[n]).name == dst
                ==> snapshot::run(g, entity::all_ops(es, ts, origin)).0.nodes[n].placeholder
                || exists|k: int| 0 <= k < es.len() && (#[trigger] es[k]).name == dst,
    ensures
        forall|reconcile: bool|
            recording::are_joined(
                #[trigger] snapshot::ingested(
                    g,
                    entity::all_ops(es, ts, origin),
                    entity::all_names(es),
                    ts,
                    reconcile,
                ).0,
                es[m].name,
                dst,
                kind,
            ),
{
    let e = es[m];
    let o = entity::label_of(e, origin);
    let ops = entity::all_ops(es, ts, origin);
    let names = entity::all_names(es);
    let rest = entity::edge_ops(e.name, e.edges, ts, o);
    let one = entity::ops_of(e, ts, origin);
    lemma_entity_edges(e.name, e.edges, ts, o);
    lemma_entities_ops(es, ts, origin);
    let i = choose|i: int|
        0 <= i < e.edges.len() && (#[trigger] e.edges[i]).dst == dst && e.edges[i].kind == kind;
    let op = OpV::ObserveEdge { src: e.name, dst: e.edges[i].dst, kind: e.edges[i].kind, ts, origin: o };
    assert(rest.contains(op));
    let q = rest.index_of(op);
    assert(one[q + 1] == op);
    assert(entity::ops_of(es[m], ts, origin).contains(op));
    let k = ops.index_of(op);
    assert(recording::joins(ops[k], e.name, dst, kind));
    assert forall|k: int| 0 <= k < es.len() implies names.contains((#[trigger] es[k]).name) by {
        batch_asserts_its_entities(es, es[k].name);
    }
    snapshot_holds_what_it_asserts(g, ops, names, ts, e.name, dst, kind);
}

// ---------------------------------------------------------------------------
// Types of what is only mentioned, and records as documents
// ---------------------------------------------------------------------------

/// The type of a container is that of the collection that it stands in.
pub proof fn container_has_the_type_of_its_collection(a: Seq<char>)
    ensures
        is_in(a, "projects"@) ==> gcp::ancestor_type(a) == Some(
            "cloudresourcemanager.googleapis.com/Project"@,
        ),
        is_in(a, "folders"@) ==> gcp::ancestor_type(a) == Some(
            "cloudresourcemanager.googleapis.com/Folder"@,
        ),
        is_in(a, "organizations"@) ==> gcp::ancestor_type(a) == Some(
            "cloudresourcemanager.googleapis.com/Organization"@,
        ),
        !is_container(a) ==> gcp::ancestor_type(a) is None,
{
    lemma_no_slash();
    lemma_is_in(a, "projects"@);
    lemma_is_in(a, "folders"@);
    lemma_is_in(a, "organizations"@);
    reveal_strlit("projects");
    reveal_strlit("folders");
    reveal_strlit("organizations");
    assert("projects"@.len() == 8 && "folders"@.len() == 7 && "organizations"@.len() == 13);
}

spec fn mention(name: Seq<char>, ty: Seq<char>, ts: Ts, origin: Option<Seq<char>>) -> OpV {
    OpV::ObservePlaceholder { name, inferred_type: ty, ts, origin }
}

proof fn lemma_chain_mentions(name: Seq<char>, ancestors: Seq<Seq<char>>, ts: Ts)
    ensures
        forall|j: int| #[trigger]
            is_listed(name, ancestors, j) ==> gcp::chain(name, ancestors, ts).0.contains(
                mention(
                    container_name(ancestors[j]),
                    gcp::ancestor_type(ancestors[j])->0,
                    ts,
                    None,
                ),
            ),
    decreases ancestors.len(),
{
    if ancestors.len() > 0 {
        let front = ancestors.drop_last();
        let last = ancestors.len() - 1;
        lemma_chain_mentions(name, front, ts);
        lemma_container(ancestors[last]);
        let a = gcp::chain(name, front, ts).0;
        let c = gcp::chain(name, ancestors, ts).0;
        assert forall|j: int| #[trigger] is_listed(name, ancestors, j) implies c.contains(
            mention(
                container_name(ancestors[j]),
                gcp::ancestor_type(ancestors[j])->0,
                ts,
                None,
            ),
        ) by {
            let op = mention(
                container_name(ancestors[j]),
                gcp::ancestor_type(ancestors[j])->0,
                ts,
                None,
            );
            if j < last {
                assert(front[j] == ancestors[j]);
                assert(is_listed(name, front, j));
                let k = a.index_of(op);
                assert(c[k] == op);
            } else {
                assert(c[c.len() - 2] == op);
            }
        }
    }
}

/// An asset mentions each container that it lists as a node of the type of its
/// collection.
pub proof fn asset_mentions_its_ancestors(a: gcp::AssetV, ts: Ts, j: int, ty: Seq<char>)
    requires
        is_listed(a.name, a.ancestors, j),
        ty == if is_in(a.ancestors[j], "projects"@) {
            "cloudresourcemanager.googleapis.com/Project"@
        } else if is_in(a.ancestors[j], "folders"@) {
            "cloudresourcemanager.googleapis.com/Folder"@
        } else {
            "cloudresourcemanager.googleapis.com/Organization"@
        },
    ensures
        gcp::ops_of(a, ts).contains(
            OpV::ObservePlaceholder {
                name: container_name(a.ancestors[j]),
                inferred_type: ty,
                ts,
                origin: None,
            },
        ),
{
    lemma_chain_mentions(a.name, a.ancestors, ts);
    container_has_the_type_of_its_collection(a.ancestors[j]);
    let c = gcp::chain(a.name, a.ancestors, ts).0;
    let op = mention(container_name(a.ancestors[j]), ty, ts, None);
    let k = c.index_of(op);
    assert(gcp::ops_of(a, ts)[k + 1] == op);
}

/// An entity mentions the target of each edge that it lists as a node of the type
/// that the edge gives, or of unknown type, with its own label.
pub proof fn entity_mentions_its_targets(
    e: entity::EntityV,
    ts: Ts,
    origin: Option<Seq<char>>,
    i: int,
)
    requires
        0 <= i < e.edges.len(),
    ensures
        entity::ops_of(e, ts, origin).contains(
            OpV::ObservePlaceholder {
                name: e.edges[i].dst,
                inferred_type: match e.edges[i].dst_type {
                    Some(t) => t,
                    None => "unknown/unknown"@,
                },
                ts,
                origin: if e.origin is Some {
                    e.origin
                } else {
                    origin
                },
            },
        ),
{
    let o = entity::label_of(e, origin);
    let rest = entity::edge_ops(e.name, e.edges, ts, o);
    lemma_entity_mentions(e.name, e.edges, ts, o, i);
    let op = mention(
        e.edges[i].dst,
        match e.edges[i].dst_type {
            Some(t) => t,
            None => "unknown/unknown"@,
        },
        ts,
        o,
    );
    let k = rest.index_of(op);
    assert(entity::ops_of(e, ts, origin)[k + 1] == op);
}

proof fn lemma_entity_mentions(
    name: Seq<char>,
    edges: Seq<entity::EntityEdgeV>,
    ts: Ts,
    o: Option<Seq<char>>,
    i: int,
)
    requires
        0 <= i < edges.len(),
    ensures
        entity::edge_ops(name, edges, ts, o).contains(
            mention(
                edges[i].dst,
                match edges[i].dst_type {
                    Some(t) => t,
                    None => "unknown/unknown"@,
                },
                ts,
                o,
            ),
        ),
    decreases edges.len(),
{
    let front = edges.drop_last();
    let a = entity::edge_ops(name, front, ts, o);
    let c = entity::edge_ops(name, edges, ts, o);
    let op = mention(
        edges[i].dst,
        match edges[i].dst_type {
            Some(t) => t,
            None => "unknown/unknown"@,
        },
        ts,
        o,
    );
    if i < front.len() {
        lemma_entity_mentions(name, front, ts, o, i);
        assert(front[i] == edges[i]);
        let k = a.index_of(op);
        assert(c[k] == op);
    } else {
        assert(c[c.len() - 2] == op);
    }
}

/// An object is an entity where its name and type are texts, and its edges and
/// label, where it has them, are edges and a text; each part of the entity is the
/// member of that name.
pub proof fn entity_is_read_from_its_members(o: Seq<(Seq<char>, JsonV)>)
    ensures
        match entity::entity_of(JsonV::Obj(o)) {
            Some(e) => {
                &&& json::field(o, "name"@) == Some(JsonV::Str(e.name))
                &&& json::field(o, "type"@) == Some(JsonV::Str(e.entity_type))
                &&& json::field(o, "props"@) == Some(e.props) || (json::field(o, "props"@) is None
                    && e.props == JsonV::Null)
                &&& match json::field(o, "edges"@) {
                    Some(JsonV::Arr(a)) => entity::edges_of(a) == Some(e.edges),
                    Some(_) => false,
                    None => e.edges.len() == 0,
                }
                &&& match json::field(o, "origin"@) {
                    Some(JsonV::Str(l)) => e.origin == Some(l),
                    Some(JsonV::Null) => e.origin is None,
                    Some(_) => false,
                    None => e.origin is None,
                }
            },
            None => {
                ||| !(json::field(o, "name"@) matches Some(JsonV::Str(_)))
                ||| !(json::field(o, "type"@) matches Some(JsonV::Str(_)))
                ||| (json::field(o, "edges"@) matches Some(v) && !(v matches JsonV::Arr(a)
                    && entity::edges_of(a) is Some))
                ||| (json::field(o, "origin"@) matches Some(v) && !(v is Null || v is Str))
            },
        },
{
}

/// An object is an asset where its name and type are texts and its ancestors, where
/// it has them, are texts; each part of the asset is the member of that name, and
/// its data is that of its resource.
pub proof fn asset_is_read_from_its_members(o: Seq<(Seq<char>, JsonV)>)
    ensures
        gcp::asset_of(JsonV::Obj(o)) matches Some(a) ==> {
            &&& json::field(o, "name"@) == Some(JsonV::Str(a.name))
            &&& json::field(o, "assetType"@) == Some(JsonV::Str(a.asset_type))
            &&& match json::field(o, "ancestors"@) {
                Some(JsonV::Arr(l)) => gcp::strings_of(l) == Some(a.ancestors),
                Some(_) => false,
                None => a.ancestors.len() == 0,
            }
            &&& match json::field(o, "resource"@) {
                Some(JsonV::Obj(r)) => a.data == (match json::field(r, "data"@) {
                    Some(d) => Some(d),
                    None => Some(JsonV::Null),
                }),
                Some(JsonV::Null) => a.data is None,
                None => a.data is None,
                _ => true,
            }
        },
        gcp::asset_of(JsonV::Obj(o)) is None ==> {
            ||| !(json::field(o, "name"@) matches Some(JsonV::Str(_)))
            ||| !(json::field(o, "assetType"@) matches Some(JsonV::Str(_)))
            ||| (json::field(o, "ancestors"@) matches Some(v) && !(v matches JsonV::Arr(l)
                && gcp::strings_of(l) is Some))
            ||| (json::field(o, "resource"@) matches Some(v) && !(v is Null || v is Obj))
        },
{
}

} // verus!
