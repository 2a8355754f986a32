//! Mutations as JSON documents.

use crate::graph;
use crate::graph::Op;
use crate::json;
use crate::json::{Json, JsonV};
use crate::model::{OpV, Ts};
use crate::records;
use crate::records::{label_of_part, text_of_part};
use crate::text;
use crate::text::{decimal_int_text, read_int, same_text};
use vstd::prelude::*;

verus! {

pub open spec fn ts_field(ts: Ts) -> (Seq<char>, JsonV) {
    ("ts"@, JsonV::Num(text::decimal_int(ts as int)))
}

pub open spec fn text_field(k: Seq<char>, s: Seq<char>) -> (Seq<char>, JsonV) {
    (k, JsonV::Str(s))
}

pub open spec fn with_origin(o: Seq<(Seq<char>, JsonV)>, origin: Option<Seq<char>>) -> Seq<
    (Seq<char>, JsonV),
> {
    match origin {
        Some(s) => o.push(text_field("origin"@, s)),
        None => o,
    }
}

/// The members of the document for a mutation. The label is left out where
/// there is none.
pub open spec fn op_fields(op: OpV) -> Seq<(Seq<char>, JsonV)> {
    match op {
        OpV::ObserveNode { name, asset_type, props, ts, origin } => with_origin(
            seq![
                text_field("op"@, "observe_node"@),
                text_field("name"@, name),
                text_field("asset_type"@, asset_type),
                ("props"@, props),
                ts_field(ts),
            ],
            origin,
        ),
        OpV::ObservePlaceholder { name, inferred_type, ts, origin } => with_origin(
            seq![
                text_field("op"@, "observe_placeholder"@),
                text_field("name"@, name),
                text_field("inferred_type"@, inferred_type),
                ts_field(ts),
            ],
            origin,
        ),
        OpV::RetireNode { name, ts } => seq![
            text_field("op"@, "retire_node"@),
            text_field("name"@, name),
            ts_field(ts),
        ],
        OpV::ObserveEdge { src, dst, kind, ts, origin } => with_origin(
            seq![
                text_field("op"@, "observe_edge"@),
                text_field("src"@, src),
                text_field("dst"@, dst),
                text_field("kind"@, kind),
                ts_field(ts),
            ],
            origin,
        ),
        OpV::RetireEdge { src, dst, kind, ts } => seq![
            text_field("op"@, "retire_edge"@),
            text_field("src"@, src),
            text_field("dst"@, dst),
            text_field("kind"@, kind),
            ts_field(ts),
        ],
    }
}

/// The document for a mutation.
pub open spec fn op_json(op: OpV) -> JsonV {
    JsonV::Obj(op_fields(op))
}

fn push_text(o: &mut Vec<(String, Json)>, k: &str, s: &str)
    ensures
        json::fields_view(final(o)@) == json::fields_view(old(o)@).push(text_field(k@, s@)),
{
    let ghost before = o@;
    o.push((k.to_owned(), Json::Str(s.to_owned())));
    assert(json::fields_view(o@) =~= json::fields_view(before).push(text_field(k@, s@)));
}

fn push_ts(o: &mut Vec<(String, Json)>, ts: Ts)
    ensures
        json::fields_view(final(o)@) == json::fields_view(old(o)@).push(ts_field(ts)),
{
    let ghost before = o@;
    o.push(("ts".to_owned(), Json::Num(decimal_int_text(ts))));
    assert(json::fields_view(o@) =~= json::fields_view(before).push(ts_field(ts)));
}

fn push_origin(o: &mut Vec<(String, Json)>, origin: &Option<String>)
    ensures
        json::fields_view(final(o)@) == with_origin(
            json::fields_view(old(o)@),
            graph::label_view(*origin),
        ),
{
    match origin {
        Some(s) => push_text(o, "origin", s.as_str()),
        None => {},
    }
}

/// The document for a mutation.
pub fn encode_op(op: &Op) -> (res: Json)
    ensures
        res@ == op_json(op@),
{
    let mut o: Vec<(String, Json)> = Vec::new();
    assert(json::fields_view(o@) =~= Seq::empty());
    match op {
        Op::ObserveNode { name, asset_type, props, ts, origin } => {
            push_text(&mut o, "op", "observe_node");
            push_text(&mut o, "name", name.as_str());
            push_text(&mut o, "asset_type", asset_type.as_str());
            let ghost before = o@;
            o.push(("props".to_owned(), props.copy()));
            assert(json::fields_view(o@) =~= json::fields_view(before).push(("props"@, props@)));
            push_ts(&mut o, *ts);
            push_origin(&mut o, origin);
        },
        Op::ObservePlaceholder { name, inferred_type, ts, origin } => {
            push_text(&mut o, "op", "observe_placeholder");
            push_text(&mut o, "name", name.as_str());
            push_text(&mut o, "inferred_type", inferred_type.as_str());
            push_ts(&mut o, *ts);
            push_origin(&mut o, origin);
        },
        Op::RetireNode { name, ts } => {
            push_text(&mut o, "op", "retire_node");
            push_text(&mut o, "name", name.as_str());
            push_ts(&mut o, *ts);
        },
        Op::ObserveEdge { src, dst, kind, ts, origin } => {
            push_text(&mut o, "op", "observe_edge");
            push_text(&mut o, "src", src.as_str());
            push_text(&mut o, "dst", dst.as_str());
            push_text(&mut o, "kind", kind.as_str());
            push_ts(&mut o, *ts);
            push_origin(&mut o, origin);
        },
        Op::RetireEdge { src, dst, kind, ts } => {
            push_text(&mut o, "op", "retire_edge");
            push_text(&mut o, "src", src.as_str());
            push_text(&mut o, "dst", dst.as_str());
            push_text(&mut o, "kind", kind.as_str());
            push_ts(&mut o, *ts);
        },
    }
    assert(json::fields_view(o@) =~= op_fields(op@));
    let res = Json::Obj(o);
    proof {
        json::lemma_json_view(res);
    }
    res
}

/// A part that has to be a 64-bit integer.
pub open spec fn int_part(v: Option<JsonV>) -> Option<Ts> {
    match v {
        Some(JsonV::Num(s)) => match text::parse_int(s) {
            Some(i) => if i64::MIN <= i <= i64::MAX {
                Some(i as i64)
            } else {
                None
            },
            None => None,
        },
        _ => None,
    }
}

/// A part that has to be a 64-bit integer.
pub fn int_of_part(v: Option<&Json>) -> (res: Option<i64>)
    ensures
        res == int_part(records::json_opt(v)),
{
    match v {
        Some(Json::Num(s)) => read_int(s.as_str()),
        _ => None,
    }
}

/// The mutation that a document stands for, if any. The member "op" tells
/// which; every other member but the label is required.
pub open spec fn op_of(v: JsonV) -> Option<OpV> {
    match records::text_part(records::part_of(v, "op"@, 0)) {
        Some(tag) => if tag == "observe_node"@ {
            match (
                records::is_record(v, 6),
                records::text_part(records::part_of(v, "name"@, 1)),
                records::text_part(records::part_of(v, "asset_type"@, 2)),
                records::part_of(v, "props"@, 3),
                int_part(records::part_of(v, "ts"@, 4)),
                records::label_part(records::part_of(v, "origin"@, 5)),
            ) {
                (true, Some(name), Some(asset_type), Some(props), Some(ts), Some(origin)) => Some(
                    OpV::ObserveNode { name, asset_type, props, ts, origin },
                ),
                _ => None,
            }
        } else if tag == "observe_placeholder"@ {
            match (
                records::is_record(v, 5),
                records::text_part(records::part_of(v, "name"@, 1)),
                records::text_part(records::part_of(v, "inferred_type"@, 2)),
                int_part(records::part_of(v, "ts"@, 3)),
                records::label_part(records::part_of(v, "origin"@, 4)),
            ) {
                (true, Some(name), Some(inferred_type), Some(ts), Some(origin)) => Some(
                    OpV::ObservePlaceholder { name, inferred_type, ts, origin },
                ),
                _ => None,
            }
        } else if tag == "retire_node"@ {
            match (
                records::is_record(v, 3),
                records::text_part(records::part_of(v, "name"@, 1)),
                int_part(records::part_of(v, "ts"@, 2)),
            ) {
                (true, Some(name), Some(ts)) => Some(OpV::RetireNode { name, ts }),
                _ => None,
            }
        } else if tag == "observe_edge"@ {
            match (
                records::is_record(v, 6),
                records::text_part(records::part_of(v, "src"@, 1)),
                records::text_part(records::part_of(v, "dst"@, 2)),
                records::text_part(records::part_of(v, "kind"@, 3)),
                int_part(records::part_of(v, "ts"@, 4)),
                records::label_part(records::part_of(v, "origin"@, 5)),
            ) {
                (true, Some(src), Some(dst), Some(kind), Some(ts), Some(origin)) => Some(
                    OpV::ObserveEdge { src, dst, kind, ts, origin },
                ),
                _ => None,
            }
        } else if tag == "retire_edge"@ {
            match (
                records::is_record(v, 5),
                records::text_part(records::part_of(v, "src"@, 1)),
                records::text_part(records::part_of(v, "dst"@, 2)),
                records::text_part(records::part_of(v, "kind"@, 3)),
                int_part(records::part_of(v, "ts"@, 4)),
            ) {
                (true, Some(src), Some(dst), Some(kind), Some(ts)) => Some(
                    OpV::RetireEdge { src, dst, kind, ts },
                ),
                _ => None,
            }
        } else {
            None
        },
        None => None,
    }
}

/// The mutation that a document stands for, if any.
pub fn decode_op(j: &Json) -> (res: Option<Op>)
    ensures
        match res {
            Some(op) => op_of(j@) == Some(op@),
            None => op_of(j@) is None,
        },
{
    let tag: String = match text_of_part(j.part("op", 0)) {
        Some(t) => t,
        None => {
            return None;
        },
    };
    if same_text(tag.as_str(), "observe_node") {
        let props: Option<Json> = match j.part("props", 3) {
            Some(p) => Some(p.copy()),
            None => None,
        };
        match (
            j.record(6),
            text_of_part(j.part("name", 1)),
            text_of_part(j.part("asset_type", 2)),
            props,
            int_of_part(j.part("ts", 4)),
            label_of_part(j.part("origin", 5)),
        ) {
            (true, Some(name), Some(asset_type), Some(props), Some(ts), Some(origin)) => Some(
                Op::ObserveNode { name, asset_type, props, ts, origin },
            ),
            _ => None,
        }
    } else if same_text(tag.as_str(), "observe_placeholder") {
        match (
            j.record(5),
            text_of_part(j.part("name", 1)),
            text_of_part(j.part("inferred_type", 2)),
            int_of_part(j.part("ts", 3)),
            label_of_part(j.part("origin", 4)),
        ) {
            (true, Some(name), Some(inferred_type), Some(ts), Some(origin)) => Some(
                Op::ObservePlaceholder { name, inferred_type, ts, origin },
            ),
            _ => None,
        }
    } else if same_text(tag.as_str(), "retire_node") {
        match (j.record(3), text_of_part(j.part("name", 1)), int_of_part(j.part("ts", 2))) {
            (true, Some(name), Some(ts)) => Some(Op::RetireNode { name, ts }),
            _ => None,
        }
    } else if same_text(tag.as_str(), "observe_edge") {
        match (
            j.record(6),
            text_of_part(j.part("src", 1)),
            text_of_part(j.part("dst", 2)),
            text_of_part(j.part("kind", 3)),
            int_of_part(j.part("ts", 4)),
            label_of_part(j.part("origin", 5)),
        ) {
            (true, Some(src), Some(dst), Some(kind), Some(ts), Some(origin)) => Some(
                Op::ObserveEdge { src, dst, kind, ts, origin },
            ),
            _ => None,
        }
    } else if same_text(tag.as_str(), "retire_edge") {
        match (
            j.record(5),
            text_of_part(j.part("src", 1)),
            text_of_part(j.part("dst", 2)),
            text_of_part(j.part("kind", 3)),
            int_of_part(j.part("ts", 4)),
        ) {
            (true, Some(src), Some(dst), Some(kind), Some(ts)) => Some(
                Op::RetireEdge { src, dst, kind, ts },
            ),
            _ => None,
        }
    } else {
        None
    }
}

/// A mutation whose document comes back from text as it was: the properties
/// of a node hold numbers that text carries exactly, their objects list each
/// name once in order, and they leave room for the nesting of the document.
pub open spec fn op_exact(op: OpV) -> bool {
    match op {
        OpV::ObserveNode { props, .. } => json::json_exact(
            props,
            (json::JSON_DEPTH - 1) as nat,
        ) && json::json_sorted(props) == props,
        _ => true,
    }
}

proof fn lemma_keys()
    ensures
        "op"@ != "name"@,
        "op"@ != "asset_type"@,
        "op"@ != "inferred_type"@,
        "op"@ != "props"@,
        "op"@ != "ts"@,
        "op"@ != "origin"@,
        "op"@ != "src"@,
        "op"@ != "dst"@,
        "op"@ != "kind"@,
        "name"@ != "asset_type"@,
        "name"@ != "inferred_type"@,
        "name"@ != "props"@,
        "name"@ != "ts"@,
        "name"@ != "origin"@,
        "asset_type"@ != "props"@,
        "asset_type"@ != "ts"@,
        "asset_type"@ != "origin"@,
        "inferred_type"@ != "ts"@,
        "inferred_type"@ != "origin"@,
        "props"@ != "ts"@,
        "props"@ != "origin"@,
        "ts"@ != "origin"@,
        "src"@ != "dst"@,
        "src"@ != "kind"@,
        "src"@ != "ts"@,
        "src"@ != "origin"@,
        "dst"@ != "kind"@,
        "dst"@ != "ts"@,
        "dst"@ != "origin"@,
        "kind"@ != "ts"@,
        "kind"@ != "origin"@,
        "observe_node"@ != "observe_placeholder"@,
        "observe_node"@ != "retire_node"@,
        "observe_node"@ != "observe_edge"@,
        "observe_node"@ != "retire_edge"@,
        "observe_placeholder"@ != "retire_node"@,
        "observe_placeholder"@ != "observe_edge"@,
        "observe_placeholder"@ != "retire_edge"@,
        "retire_node"@ != "observe_edge"@,
        "retire_node"@ != "retire_edge"@,
        "observe_edge"@ != "retire_edge"@,
{
    reveal_strlit("op");
    reveal_strlit("name");
    reveal_strlit("asset_type");
    reveal_strlit("inferred_type");
    reveal_strlit("props");
    reveal_strlit("ts");
    reveal_strlit("origin");
    reveal_strlit("src");
    reveal_strlit("dst");
    reveal_strlit("kind");
    reveal_strlit("observe_node");
    reveal_strlit("observe_placeholder");
    reveal_strlit("retire_node");
    reveal_strlit("observe_edge");
    reveal_strlit("retire_edge");
    assert("op"@.len() == 2);
    assert("name"@.len() == 4);
    assert("asset_type"@.len() == 10);
    assert("inferred_type"@.len() == 13);
    assert("props"@.len() == 5);
    assert("ts"@.len() == 2);
    assert("origin"@.len() == 6);
    assert("src"@.len() == 3);
    assert("dst"@.len() == 3);
    assert("kind"@.len() == 4);
    assert("observe_node"@.len() == 12);
    assert("observe_placeholder"@.len() == 19);
    assert("retire_node"@.len() == 11);
    assert("observe_edge"@.len() == 12);
    assert("retire_edge"@.len() == 11);
    assert("op"@[0] != "ts"@[0]);
    assert("src"@[0] != "dst"@[0]);
    assert("name"@[0] != "kind"@[0]);
    assert("observe_node"@[0] == 'o');
    assert("observe_edge"@[8] == 'e');
    assert("observe_node"@[8] == 'n');
    assert("retire_node"@[7] == 'n');
    assert("retire_edge"@[7] == 'e');
}

/// The members of the document for a mutation, by name.
proof fn lemma_op_fields(op: OpV)
    ensures
        ({
            let o = op_fields(op);
            match op {
                OpV::ObserveNode { name, asset_type, props, ts, origin } => {
                    &&& json::field(o, "op"@) == Some(JsonV::Str("observe_node"@))
                    &&& json::field(o, "name"@) == Some(JsonV::Str(name))
                    &&& json::field(o, "asset_type"@) == Some(JsonV::Str(asset_type))
                    &&& json::field(o, "props"@) == Some(props)
                    &&& json::field(o, "ts"@) == Some(ts_field(ts).1)
                    &&& json::field(o, "origin"@) == (match origin {
                        Some(s) => Some(JsonV::Str(s)),
                        None => None,
                    })
                },
                OpV::ObservePlaceholder { name, inferred_type, ts, origin } => {
                    &&& json::field(o, "op"@) == Some(JsonV::Str("observe_placeholder"@))
                    &&& json::field(o, "name"@) == Some(JsonV::Str(name))
                    &&& json::field(o, "inferred_type"@) == Some(JsonV::Str(inferred_type))
                    &&& json::field(o, "ts"@) == Some(ts_field(ts).1)
                    &&& json::field(o, "origin"@) == (match origin {
                        Some(s) => Some(JsonV::Str(s)),
                        None => None,
                    })
                },
                OpV::RetireNode { name, ts } => {
                    &&& json::field(o, "op"@) == Some(JsonV::Str("retire_node"@))
                    &&& json::field(o, "name"@) == Some(JsonV::Str(name))
                    &&& json::field(o, "ts"@) == Some(ts_field(ts).1)
                },
                OpV::ObserveEdge { src, dst, kind, ts, origin } => {
                    &&& json::field(o, "op"@) == Some(JsonV::Str("observe_edge"@))
                    &&& json::field(o, "src"@) == Some(JsonV::Str(src))
                    &&& json::field(o, "dst"@) == Some(JsonV::Str(dst))
                    &&& json::field(o, "kind"@) == Some(JsonV::Str(kind))
                    &&& json::field(o, "ts"@) == Some(ts_field(ts).1)
                    &&& json::field(o, "origin"@) == (match origin {
                        Some(s) => Some(JsonV::Str(s)),
                        None => None,
                    })
                },
                OpV::RetireEdge { src, dst, kind, ts } => {
                    &&& json::field(o, "op"@) == Some(JsonV::Str("retire_edge"@))
                    &&& json::field(o, "src"@) == Some(JsonV::Str(src))
                    &&& json::field(o, "dst"@) == Some(JsonV::Str(dst))
                    &&& json::field(o, "kind"@) == Some(JsonV::Str(kind))
                    &&& json::field(o, "ts"@) == Some(ts_field(ts).1)
                },
            }
        }),
{
    lemma_keys();
    reveal_with_fuel(json::field, 8);
}

/// A mutation comes back from the document that was read from its text.
pub proof fn op_survives_encoding(op: OpV)
    requires
        op_exact(op),
    ensures
        json::json_exact(op_json(op), json::JSON_DEPTH as nat),
        op_of(json::json_sorted(op_json(op))) == Some(op),
{
    let o = op_fields(op);
    lemma_op_fields(op);
    json::lemma_field_sorted(o, "op"@);
    json::lemma_field_sorted(o, "name"@);
    json::lemma_field_sorted(o, "asset_type"@);
    json::lemma_field_sorted(o, "inferred_type"@);
    json::lemma_field_sorted(o, "props"@);
    json::lemma_field_sorted(o, "ts"@);
    json::lemma_field_sorted(o, "origin"@);
    json::lemma_field_sorted(o, "src"@);
    json::lemma_field_sorted(o, "dst"@);
    json::lemma_field_sorted(o, "kind"@);
    lemma_keys();
    let ts = match op {
        OpV::ObserveNode { ts, .. } => ts,
        OpV::ObservePlaceholder { ts, .. } => ts,
        OpV::RetireNode { ts, .. } => ts,
        OpV::ObserveEdge { ts, .. } => ts,
        OpV::RetireEdge { ts, .. } => ts,
    };
    text::lemma_parse_int(ts as int);
    assert(json::is_whole(text::decimal_int(ts as int)));
    assert forall|i: int| 0 <= i < o.len() implies json::json_exact(
        (#[trigger] o[i]).1,
        (json::JSON_DEPTH - 1) as nat,
    ) by {}
}

} // verus!
