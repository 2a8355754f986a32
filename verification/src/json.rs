//! JSON documents as trees: reading, writing, field access.

use crate::text;
use crate::text::{same_text, text_less};
use vstd::prelude::*;

verus! {

/// A JSON document. Numbers are kept in their decimal form.
#[derive(Debug)]
pub enum Json {
    Null,
    Bool(bool),
    Num(String),
    Str(String),
    Arr(Vec<Json>),
    Obj(Vec<(String, Json)>),
}

/// The mathematical form of a JSON document.
pub enum JsonV {
    Null,
    Bool(bool),
    Num(Seq<char>),
    Str(Seq<char>),
    Arr(Seq<JsonV>),
    Obj(Seq<(Seq<char>, JsonV)>),
}

pub open spec fn json_view(j: Json) -> JsonV
    decreases j,
{
    match j {
        Json::Null => JsonV::Null,
        Json::Bool(b) => JsonV::Bool(b),
        Json::Num(s) => JsonV::Num(s@),
        Json::Str(s) => JsonV::Str(s@),
        Json::Arr(a) => JsonV::Arr(
            Seq::new(
                a@.len(),
                |i: int|
                    if 0 <= i < a@.len() {
                        json_view(a@[i])
                    } else {
                        JsonV::Null
                    },
            ),
        ),
        Json::Obj(o) => JsonV::Obj(
            Seq::new(
                o@.len(),
                |i: int|
                    if 0 <= i < o@.len() {
                        (o@[i].0@, json_view(o@[i].1))
                    } else {
                        (Seq::empty(), JsonV::Null)
                    },
            ),
        ),
    }
}

impl View for Json {
    type V = JsonV;

    open spec fn view(&self) -> JsonV {
        json_view(*self)
    }
}

/// A character as it stands inside a JSON string literal.
pub open spec fn json_escape(c: char) -> Seq<char> {
    if c == '"' {
        seq!['\\', '"']
    } else if c == '\\' {
        seq!['\\', '\\']
    } else if c == '\u{8}' {
        seq!['\\', 'b']
    } else if c == '\t' {
        seq!['\\', 't']
    } else if c == '\n' {
        seq!['\\', 'n']
    } else if c == '\u{c}' {
        seq!['\\', 'f']
    } else if c == '\r' {
        seq!['\\', 'r']
    } else if 32 > c as nat {
        seq!['\\', 'u', '0', '0', text::hex_digit((c as nat) / 16), text::hex_digit((c as nat) % 16)]
    } else {
        seq![c]
    }
}

pub open spec fn json_escaped(s: Seq<char>) -> Seq<char>
    decreases s.len(),
{
    if s.len() == 0 {
        Seq::empty()
    } else {
        json_escaped(s.drop_last()) + json_escape(s.last())
    }
}

/// A text as a JSON string literal.
pub open spec fn json_quote(s: Seq<char>) -> Seq<char> {
    seq!['"'] + json_escaped(s) + seq!['"']
}

/// The compact text of a document.
pub open spec fn json_text(v: JsonV) -> Seq<char>
    decreases v,
{
    match v {
        JsonV::Null => seq!['n', 'u', 'l', 'l'],
        JsonV::Bool(true) => seq!['t', 'r', 'u', 'e'],
        JsonV::Bool(false) => seq!['f', 'a', 'l', 's', 'e'],
        JsonV::Num(s) => s,
        JsonV::Str(s) => json_quote(s),
        JsonV::Arr(a) => seq!['['] + items_text(a) + seq![']'],
        JsonV::Obj(o) => seq!['{'] + fields_text(o) + seq!['}'],
    }
}

/// The elements of an array, separated by commas.
pub open spec fn items_text(a: Seq<JsonV>) -> Seq<char>
    decreases a,
{
    if a.len() == 0 {
        Seq::empty()
    } else if a.len() == 1 {
        json_text(a[0])
    } else {
        items_text(a.drop_last()) + seq![','] + json_text(a.last())
    }
}

/// The members of an object, separated by commas.
pub open spec fn fields_text(o: Seq<(Seq<char>, JsonV)>) -> Seq<char>
    decreases o,
{
    if o.len() == 0 {
        Seq::empty()
    } else if o.len() == 1 {
        json_quote(o[0].0) + seq![':'] + json_text(o[0].1)
    } else {
        fields_text(o.drop_last()) + seq![','] + (json_quote(o.last().0) + seq![':'] + json_text(
            o.last().1,
        ))
    }
}

/// The member named `k`, the last one where the name occurs more than once.
pub open spec fn field(o: Seq<(Seq<char>, JsonV)>, k: Seq<char>) -> Option<JsonV>
    decreases o.len(),
{
    if o.len() == 0 {
        None
    } else if o.last().0 == k {
        Some(o.last().1)
    } else {
        field(o.drop_last(), k)
    }
}

pub open spec fn replace_field(o: Seq<(Seq<char>, JsonV)>, k: Seq<char>, v: JsonV) -> Seq<
    (Seq<char>, JsonV),
>
    decreases o.len(),
{
    if o.len() == 0 {
        o
    } else if o.last().0 == k {
        o.drop_last().push((k, v))
    } else {
        replace_field(o.drop_last(), k, v).push(o.last())
    }
}

pub open spec fn insert_field(o: Seq<(Seq<char>, JsonV)>, k: Seq<char>, v: JsonV) -> Seq<
    (Seq<char>, JsonV),
>
    decreases o.len(),
{
    if o.len() == 0 || text::text_lt(o.last().0, k) {
        o.push((k, v))
    } else {
        insert_field(o.drop_last(), k, v).push(o.last())
    }
}

/// The members of an object with `v` under the name `k`.
pub open spec fn set_field(o: Seq<(Seq<char>, JsonV)>, k: Seq<char>, v: JsonV) -> Seq<
    (Seq<char>, JsonV),
> {
    if field(o, k) is Some {
        replace_field(o, k, v)
    } else {
        insert_field(o, k, v)
    }
}

/// The members of an object in the order of their names, each name once.
pub open spec fn sorted_fields(o: Seq<(Seq<char>, JsonV)>) -> Seq<(Seq<char>, JsonV)>
    decreases o,
{
    if o.len() == 0 {
        o
    } else {
        set_field(sorted_fields(o.drop_last()), o.last().0, json_sorted(o.last().1))
    }
}

/// The document with the members of each object in the order of their names.
pub open spec fn json_sorted(v: JsonV) -> JsonV
    decreases v,
{
    match v {
        JsonV::Arr(a) => JsonV::Arr(
            Seq::new(
                a.len(),
                |i: int|
                    if 0 <= i < a.len() {
                        json_sorted(a[i])
                    } else {
                        JsonV::Null
                    },
            ),
        ),
        JsonV::Obj(o) => JsonV::Obj(sorted_fields(o)),
        _ => v,
    }
}

/// The text of a document with the members of each object in the order of their
/// names, each name once: the same for two documents that say the same.
pub open spec fn canonical_text(v: JsonV) -> Seq<char> {
    json_text(json_sorted(v))
}

/// An integer of 64 bits.
pub open spec fn is_whole(s: Seq<char>) -> bool {
    exists|i: int| i64::MIN <= i <= u64::MAX && s == #[trigger] text::decimal_int(i)
}

/// A number that JSON text carries exactly: an integer of 64 bits, or one that
/// is read as it is written.
pub open spec fn exact_number(s: Seq<char>) -> bool {
    is_whole(s) || (s.len() > 0 && one_line(s) && json_parse(s) == Ok::<JsonV, Seq<char>>(
        JsonV::Num(s),
    ))
}

/// Every number in the document is carried exactly, and nothing is nested deeper
/// than `depth`.
pub open spec fn json_exact(v: JsonV, depth: nat) -> bool
    decreases v,
{
    match v {
        JsonV::Num(s) => exact_number(s),
        JsonV::Arr(a) => depth > 0 && forall|i: int|
            0 <= i < a.len() ==> json_exact(#[trigger] a[i], (depth - 1) as nat),
        JsonV::Obj(o) => depth > 0 && forall|i: int|
            0 <= i < o.len() ==> json_exact((#[trigger] o[i]).1, (depth - 1) as nat),
        _ => true,
    }
}

/// What `serde_json::from_str` makes of a text: the document, or its message.
pub uninterp spec fn json_parse(text: Seq<char>) -> Result<JsonV, Seq<char>>;

/// The depth to which documents may be nested in text that is read.
pub const JSON_DEPTH: usize = 127;

/// `serde_json::to_string` of a `str`, which cannot fail: the string literal,
/// with quotes, backslashes and control characters escaped and every other
/// character as it is.
#[verifier::external_body]
pub(crate) fn quote(s: &str) -> (res: String)
    ensures
        res@ == json_quote(s@),
{
    serde_json::to_string(s).unwrap()
}

/// `serde_json::Value`, which `serde_json::from_str` reads text into.
#[verifier::external_type_specification]
#[verifier::external_body]
pub struct ExValue(serde_json::Value);

/// A `serde_json::Value` as a [`Json`], variant for variant.
#[verifier::external_body]
fn from_value(v: serde_json::Value) -> Json {
    match v {
        serde_json::Value::Null => Json::Null,
        serde_json::Value::Bool(b) => Json::Bool(b),
        serde_json::Value::Number(n) => Json::Num(n.to_string()),
        serde_json::Value::String(s) => Json::Str(s),
        serde_json::Value::Array(a) => Json::Arr(a.into_iter().map(from_value).collect()),
        serde_json::Value::Object(o) => Json::Obj(
            o.into_iter().map(|(k, x)| (k, from_value(x))).collect(),
        ),
    }
}

/// `serde_json::from_str` into a `serde_json::Value`. The outcome depends on
/// the text alone. Text that was written from a document whose numbers are
/// integers of 64 bits, or numbers that are read as they are written where they
/// stand alone, and that is nested no deeper than the parser allows reads back
/// as that document, with the members of each object sorted by name and the
/// last one kept where a name occurs twice.
#[verifier::external_body]
pub(crate) fn parse_text(text: &str) -> (res: Result<Json, String>)
    ensures
        match res {
            Ok(j) => json_parse(text@) == Ok::<JsonV, Seq<char>>(j@),
            Err(e) => json_parse(text@) == Err::<JsonV, Seq<char>>(e@),
        },
        forall|v: JsonV|
            text@ == #[trigger] json_text(v) && json_exact(v, JSON_DEPTH as nat) ==> res is Ok
                && res->Ok_0@ == json_sorted(v),
{
    serde_json::from_str::<serde_json::Value>(text).map(from_value).map_err(|e| e.to_string())
}

/// Reads a document from text.
pub fn parse_json(text: &str) -> (res: Result<Json, String>)
    ensures
        match res {
            Ok(j) => json_parse(text@) == Ok::<JsonV, Seq<char>>(j@),
            Err(e) => json_parse(text@) == Err::<JsonV, Seq<char>>(e@),
        },
        forall|v: JsonV|
            text@ == #[trigger] json_text(v) && json_exact(v, JSON_DEPTH as nat) ==> res is Ok
                && res->Ok_0@ == json_sorted(v),
{
    parse_text(text)
}

pub open spec fn items_view(a: Seq<Json>) -> Seq<JsonV> {
    Seq::new(a.len(), |i: int| json_view(a[i]))
}

pub open spec fn fields_view(o: Seq<(String, Json)>) -> Seq<(Seq<char>, JsonV)> {
    Seq::new(o.len(), |i: int| (o[i].0@, json_view(o[i].1)))
}

pub proof fn lemma_json_view(j: Json)
    ensures
        j matches Json::Arr(a) ==> j@ == JsonV::Arr(items_view(a@)),
        j matches Json::Obj(o) ==> j@ == JsonV::Obj(fields_view(o@)),
{
    match j {
        Json::Arr(a) => {
            assert(j@->Arr_0 =~= items_view(a@));
        },
        Json::Obj(o) => {
            assert(j@->Obj_0 =~= fields_view(o@));
        },
        _ => {},
    }
}

impl Json {
    /// Appends the compact text of the document.
    pub fn write(&self, out: &mut String)
        ensures
            final(out)@ == old(out)@ + json_text(self@),
        decreases self,
    {
        proof {
            lemma_json_view(*self);
            reveal_strlit("null");
            reveal_strlit("true");
            reveal_strlit("false");
            reveal_strlit("[");
            reveal_strlit("]");
            reveal_strlit("{");
            reveal_strlit("}");
        }
        let ghost start = out@;
        match self {
            Json::Null => {
                assert("null"@ =~= seq!['n', 'u', 'l', 'l']);
                out.append("null");
            },
            Json::Bool(b) => {
                assert("true"@ =~= seq!['t', 'r', 'u', 'e']);
                assert("false"@ =~= seq!['f', 'a', 'l', 's', 'e']);
                if *b {
                    out.append("true");
                } else {
                    out.append("false");
                }
            },
            Json::Num(s) => {
                out.append(s.as_str());
            },
            Json::Str(s) => {
                let q = quote(s.as_str());
                out.append(q.as_str());
            },
            Json::Arr(a) => {
                out.append("[");
                let mut i: usize = 0;
                assert(items_view(a@).take(0) =~= Seq::empty());
                assert(out@ =~= start + seq!['['] + items_text(items_view(a@).take(0)));
                while i < a.len()
                    invariant
                        i <= a@.len(),
                        *self == Json::Arr(*a),
                        out@ == start + seq!['['] + items_text(items_view(a@).take(i as int)),
                    decreases a@.len() - i,
                {
                    let ghost items = items_view(a@);
                    proof {
                        assert(items.take(i + 1).drop_last() =~= items.take(i as int));
                        assert(items.take(i + 1).last() == a@[i as int]@);
                        reveal_strlit(",");
                        assert(","@ =~= seq![',']);
                    }
                    if i > 0 {
                        out.append(",");
                    }
                    proof {
                        assert(decreases_to!(*self => self->Arr_0));
                        assert(decreases_to!(*a => a@));
                        assert(decreases_to!(a@ => a@[i as int]));
                    }
                    a[i].write(out);
                    proof {
                        if i == 0 {
                            assert(items_text(items.take(0)) =~= Seq::<char>::empty());
                            assert(items.take(1)[0] == a@[0]@);
                        }
                        assert(out@ =~= start + seq!['['] + items_text(items.take(i + 1)));
                    }
                    i += 1;
                }
                out.append("]");
                assert(items_view(a@).take(a@.len() as int) =~= items_view(a@));
                assert("]"@ =~= seq![']']);
                assert(out@ =~= start + json_text(self@));
            },
            Json::Obj(o) => {
                out.append("{");
                let mut i: usize = 0;
                assert(fields_view(o@).take(0) =~= Seq::empty());
                assert(out@ =~= start + seq!['{'] + fields_text(fields_view(o@).take(0)));
                while i < o.len()
                    invariant
                        i <= o@.len(),
                        *self == Json::Obj(*o),
                        out@ == start + seq!['{'] + fields_text(fields_view(o@).take(i as int)),
                    decreases o@.len() - i,
                {
                    let ghost items = fields_view(o@);
                    proof {
                        assert(items.take(i + 1).drop_last() =~= items.take(i as int));
                        assert(items.take(i + 1).last() == items[i as int]);
                        reveal_strlit(",");
                        reveal_strlit(":");
                        assert(","@ =~= seq![',']);
                        assert(":"@ =~= seq![':']);
                    }
                    if i > 0 {
                        out.append(",");
                    }
                    let q = quote(o[i].0.as_str());
                    out.append(q.as_str());
                    out.append(":");
                    proof {
                        assert(decreases_to!(*self => self->Obj_0));
                        assert(decreases_to!(*o => o@));
                        assert(decreases_to!(o@ => o@[i as int]));
                        assert(decreases_to!(o@[i as int] => o@[i as int].1));
                    }
                    o[i].1.write(out);
                    proof {
                        if i == 0 {
                            assert(fields_text(items.take(0)) =~= Seq::<char>::empty());
                            assert(items.take(1)[0] == items[0]);
                        }
                        assert(out@ =~= start + seq!['{'] + fields_text(items.take(i + 1)));
                    }
                    i += 1;
                }
                out.append("}");
                assert(fields_view(o@).take(o@.len() as int) =~= fields_view(o@));
                assert("}"@ =~= seq!['}']);
                assert(out@ =~= start + json_text(self@));
            },
        }
    }

    /// The compact text of the document.
    pub fn text(&self) -> (res: String)
        ensures
            res@ == json_text(self@),
    {
        let mut s = String::new();
        self.write(&mut s);
        assert(Seq::<char>::empty() + json_text(self@) =~= json_text(self@));
        s
    }

    /// A document of its own with the same content.
    pub fn copy(&self) -> (res: Json)
        ensures
            res@ == self@,
        decreases self,
    {
        proof {
            lemma_json_view(*self);
        }
        match self {
            Json::Null => Json::Null,
            Json::Bool(b) => Json::Bool(*b),
            Json::Num(s) => Json::Num(s.clone()),
            Json::Str(s) => Json::Str(s.clone()),
            Json::Arr(a) => {
                let mut out: Vec<Json> = Vec::new();
                let mut i: usize = 0;
                while i < a.len()
                    invariant
                        i <= a@.len(),
                        *self == Json::Arr(*a),
                        out@.len() == i,
                        forall|j: int| 0 <= j < i ==> json_view(#[trigger] out@[j]) == json_view(a@[j]),
                    decreases a@.len() - i,
                {
                    proof {
                        assert(decreases_to!(*self => self->Arr_0));
                        assert(decreases_to!(*a => a@));
                        assert(decreases_to!(a@ => a@[i as int]));
                    }
                    out.push(a[i].copy());
                    i += 1;
                }
                let res = Json::Arr(out);
                proof {
                    lemma_json_view(res);
                    assert(items_view(out@) =~= items_view(a@));
                }
                res
            },
            Json::Obj(o) => {
                let mut out: Vec<(String, Json)> = Vec::new();
                let mut i: usize = 0;
                while i < o.len()
                    invariant
                        i <= o@.len(),
                        *self == Json::Obj(*o),
                        out@.len() == i,
                        forall|j: int|
                            0 <= j < i ==> (#[trigger] out@[j]).0@ == o@[j].0@ && json_view(out@[j].1)
                                == json_view(o@[j].1),
                    decreases o@.len() - i,
                {
                    proof {
                        assert(decreases_to!(*self => self->Obj_0));
                        assert(decreases_to!(*o => o@));
                        assert(decreases_to!(o@ => o@[i as int]));
                        assert(decreases_to!(o@[i as int] => o@[i as int].1));
                    }
                    out.push((o[i].0.clone(), o[i].1.copy()));
                    i += 1;
                }
                let res = Json::Obj(out);
                proof {
                    lemma_json_view(res);
                    assert(fields_view(out@) =~= fields_view(o@));
                }
                res
            },
        }
    }

    /// The document with the members of each object in the order of their names,
    /// the last one kept where a name occurs twice.
    pub fn sorted(&self) -> (res: Json)
        ensures
            res@ == json_sorted(self@),
        decreases self,
    {
        proof {
            lemma_json_view(*self);
        }
        match self {
            Json::Arr(a) => {
                let mut out: Vec<Json> = Vec::new();
                let mut i: usize = 0;
                while i < a.len()
                    invariant
                        i <= a@.len(),
                        *self == Json::Arr(*a),
                        out@.len() == i,
                        forall|j: int|
                            0 <= j < i ==> json_view(#[trigger] out@[j]) == json_sorted(
                                json_view(a@[j]),
                            ),
                    decreases a@.len() - i,
                {
                    proof {
                        assert(decreases_to!(*self => self->Arr_0));
                        assert(decreases_to!(*a => a@));
                        assert(decreases_to!(a@ => a@[i as int]));
                    }
                    out.push(a[i].sorted());
                    i += 1;
                }
                let res = Json::Arr(out);
                proof {
                    lemma_json_view(res);
                    assert(items_view(out@) =~= json_sorted(self@)->Arr_0);
                }
                res
            },
            Json::Obj(o) => {
                let ghost fs = fields_view(o@);
                let mut out: Vec<(String, Json)> = Vec::new();
                let mut i: usize = 0;
                proof {
                    assert(fields_view(out@) =~= Seq::empty());
                    assert(fs.take(0) =~= Seq::empty());
                }
                while i < o.len()
                    invariant
                        i <= o@.len(),
                        *self == Json::Obj(*o),
                        fs == fields_view(o@),
                        fields_view(out@) == sorted_fields(fs.take(i as int)),
                    decreases o@.len() - i,
                {
                    proof {
                        assert(decreases_to!(*self => self->Obj_0));
                        assert(decreases_to!(*o => o@));
                        assert(decreases_to!(o@ => o@[i as int]));
                        assert(decreases_to!(o@[i as int] => o@[i as int].1));
                        assert(fs.take(i + 1).drop_last() =~= fs.take(i as int));
                        assert(fs.take(i + 1).last() == fs[i as int]);
                    }
                    put_field(&mut out, o[i].0.clone(), o[i].1.sorted());
                    i += 1;
                }
                let res = Json::Obj(out);
                proof {
                    lemma_json_view(res);
                    assert(fs.take(fs.len() as int) =~= fs);
                }
                res
            },
            other => other.copy(),
        }
    }

    /// The member named `k` of an object.
    pub fn get(&self, k: &str) -> (res: Option<&Json>)
        ensures
            match res {
                Some(x) => self@ is Obj && field(self@->Obj_0, k@) == Some(x@),
                None => self@ is Obj ==> field(self@->Obj_0, k@) is None,
            },
    {
        proof {
            lemma_json_view(*self);
        }
        match self {
            Json::Obj(o) => {
                let ghost fs = fields_view(o@);
                let mut i: usize = o.len();
                assert(fs.take(i as int) =~= fs);
                while i > 0
                    invariant
                        i <= o@.len(),
                        fs == fields_view(o@),
                        self@ == JsonV::Obj(fs),
                        field(fs, k@) == field(fs.take(i as int), k@),
                    decreases i,
                {
                    assert(fs.take(i as int).drop_last() =~= fs.take(i - 1));
                    assert(fs.take(i as int).last() == fs[i - 1]);
                    if same_text(o[i - 1].0.as_str(), k) {
                        return Some(&o[i - 1].1);
                    }
                    i -= 1;
                }
                None
            },
            _ => None,
        }
    }
}

/// A text without a line feed.
pub open spec fn one_line(s: Seq<char>) -> bool {
    forall|i: int| 0 <= i < s.len() ==> s[i] != '\n'
}

proof fn lemma_decimal_one_line(n: nat)
    ensures
        one_line(text::decimal(n)),
    decreases n,
{
    text::lemma_decimal_parse(n);
    let d = text::decimal(n);
    assert forall|i: int| 0 <= i < d.len() implies d[i] != '\n' by {
        assert(text::is_digit(d[i]));
    }
}

proof fn lemma_quote_one_line(s: Seq<char>)
    ensures
        one_line(json_quote(s)),
{
    lemma_escaped_one_line(s);
}

proof fn lemma_escaped_one_line(s: Seq<char>)
    ensures
        one_line(json_escaped(s)),
    decreases s.len(),
{
    if s.len() > 0 {
        lemma_escaped_one_line(s.drop_last());
        assert(one_line(json_escape(s.last())));
    }
}

/// The text of a document is one line.
pub proof fn lemma_text_one_line(v: JsonV, depth: nat)
    requires
        json_exact(v, depth),
    ensures
        one_line(json_text(v)),
        json_text(v).len() > 0,
    decreases v, 0nat,
{
    match v {
        JsonV::Num(s) => {
            if is_whole(s) {
                let i = choose|i: int|
                    i64::MIN <= i <= u64::MAX && s == #[trigger] text::decimal_int(i);
                if i < 0 {
                    lemma_decimal_one_line((-i) as nat);
                } else {
                    lemma_decimal_one_line(i as nat);
                    text::lemma_decimal_parse(i as nat);
                }
            }
        },
        JsonV::Str(s) => {
            lemma_quote_one_line(s);
        },
        JsonV::Arr(a) => {
            lemma_items_one_line(a, depth);
        },
        JsonV::Obj(o) => {
            lemma_fields_one_line(o, depth);
        },
        _ => {},
    }
}

proof fn lemma_items_one_line(a: Seq<JsonV>, depth: nat)
    requires
        depth > 0,
        forall|i: int| 0 <= i < a.len() ==> json_exact(#[trigger] a[i], (depth - 1) as nat),
    ensures
        one_line(items_text(a)),
    decreases a, 1nat,
{
    if a.len() > 0 {
        assert(json_exact(a[a.len() - 1], (depth - 1) as nat));
        lemma_text_one_line(a[a.len() - 1], (depth - 1) as nat);
        assert forall|i: int| 0 <= i < a.drop_last().len() implies json_exact(
            #[trigger] a.drop_last()[i],
            (depth - 1) as nat,
        ) by {
            assert(json_exact(a[i], (depth - 1) as nat));
        }
        if a.len() > 1 {
            lemma_items_one_line(a.drop_last(), depth);
        }
    }
}

proof fn lemma_fields_one_line(o: Seq<(Seq<char>, JsonV)>, depth: nat)
    requires
        depth > 0,
        forall|i: int| 0 <= i < o.len() ==> json_exact((#[trigger] o[i]).1, (depth - 1) as nat),
    ensures
        one_line(fields_text(o)),
    decreases o, 1nat,
{
    if o.len() > 0 {
        let l = o[o.len() - 1];
        assert(json_exact(l.1, (depth - 1) as nat));
        assert(decreases_to!(o => l));
        assert(decreases_to!(l => l.1));
        lemma_text_one_line(l.1, (depth - 1) as nat);
        lemma_quote_one_line(l.0);
        assert forall|i: int| 0 <= i < o.drop_last().len() implies json_exact(
            (#[trigger] o.drop_last()[i]).1,
            (depth - 1) as nat,
        ) by {
            assert(json_exact(o[i].1, (depth - 1) as nat));
        }
        if o.len() > 1 {
            lemma_fields_one_line(o.drop_last(), depth);
        }
    }
}

/// Sorting the members of an object keeps what each name stands for.
pub proof fn lemma_field_sorted(o: Seq<(Seq<char>, JsonV)>, k: Seq<char>)
    ensures
        match field(o, k) {
            Some(v) => field(sorted_fields(o), k) == Some(json_sorted(v)),
            None => field(sorted_fields(o), k) is None,
        },
    decreases o.len(),
{
    if o.len() > 0 {
        let before = sorted_fields(o.drop_last());
        lemma_field_sorted(o.drop_last(), k);
        let v = json_sorted(o.last().1);
        if field(before, o.last().0) is Some {
            lemma_field_replace(before, o.last().0, v, k);
        } else {
            lemma_field_insert(before, o.last().0, v, k);
        }
    }
}

pub(crate) proof fn lemma_field_replace(o: Seq<(Seq<char>, JsonV)>, k: Seq<char>, v: JsonV, q: Seq<char>)
    requires
        field(o, k) is Some,
    ensures
        field(replace_field(o, k, v), q) == (if q == k {
            Some(v)
        } else {
            field(o, q)
        }),
    decreases o.len(),
{
    if o.last().0 == k {
        assert(o.drop_last().push((k, v)).drop_last() =~= o.drop_last());
    } else {
        lemma_field_replace(o.drop_last(), k, v, q);
        let r = replace_field(o.drop_last(), k, v);
        assert(r.push(o.last()).drop_last() =~= r);
    }
}

pub(crate) proof fn lemma_field_insert(o: Seq<(Seq<char>, JsonV)>, k: Seq<char>, v: JsonV, q: Seq<char>)
    requires
        field(o, k) is None,
    ensures
        field(insert_field(o, k, v), q) == (if q == k {
            Some(v)
        } else {
            field(o, q)
        }),
    decreases o.len(),
{
    if o.len() == 0 || text::text_lt(o.last().0, k) {
        assert(o.push((k, v)).drop_last() =~= o);
    } else {
        lemma_field_insert(o.drop_last(), k, v, q);
        let r = insert_field(o.drop_last(), k, v);
        assert(r.push(o.last()).drop_last() =~= r);
    }
}

proof fn lemma_replace_at(o: Seq<(Seq<char>, JsonV)>, k: Seq<char>, v: JsonV, p: int)
    requires
        0 <= p < o.len(),
        o[p].0 == k,
        forall|i: int| p < i < o.len() ==> (#[trigger] o[i]).0 != k,
    ensures
        replace_field(o, k, v) == o.update(p, (k, v)),
        field(o, k) is Some,
    decreases o.len(),
{
    if p == o.len() - 1 {
        assert(o.drop_last().push((k, v)) =~= o.update(p, (k, v)));
    } else {
        assert(o[o.len() - 1].0 != k);
        lemma_replace_at(o.drop_last(), k, v, p);
        assert(replace_field(o.drop_last(), k, v).push(o.last()) =~= o.update(p, (k, v)));
    }
}

proof fn lemma_insert_at(o: Seq<(Seq<char>, JsonV)>, k: Seq<char>, v: JsonV, p: int)
    requires
        0 <= p <= o.len(),
        p > 0 ==> text::text_lt(o[p - 1].0, k),
        forall|i: int| p <= i < o.len() ==> !text::text_lt((#[trigger] o[i]).0, k),
    ensures
        insert_field(o, k, v) == o.insert(p, (k, v)),
    decreases o.len(),
{
    if p == o.len() {
        assert(o.insert(p, (k, v)) =~= o.push((k, v)));
    } else {
        assert(!text::text_lt(o[o.len() - 1].0, k));
        lemma_insert_at(o.drop_last(), k, v, p);
        assert(insert_field(o.drop_last(), k, v).push(o.last()) =~= o.insert(p, (k, v)));
    }
}

/// Puts `v` under the name `k`: in place of what stands there, or where the
/// order of names wants it.
pub fn put_field(o: &mut Vec<(String, Json)>, k: String, v: Json)
    ensures
        fields_view(final(o)@) == set_field(fields_view(old(o)@), k@, v@),
{
    let ghost fs = fields_view(o@);
    let mut i: usize = o.len();
    assert(fs.take(i as int) =~= fs);
    while i > 0
        invariant
            i <= o@.len(),
            o@ == old(o)@,
            fs == fields_view(o@),
            forall|j: int| i <= j < o@.len() ==> (#[trigger] fs[j]).0 != k@,
            field(fs, k@) == field(fs.take(i as int), k@),
        decreases i,
    {
        assert(fs[i - 1].0 == o@[i - 1].0@);
        assert(fs.take(i as int).last() == fs[i - 1]);
        assert(fs.take(i as int).drop_last() =~= fs.take(i - 1));
        if same_text(o[i - 1].0.as_str(), k.as_str()) {
            proof {
                lemma_replace_at(fs, k@, v@, i - 1);
            }
            o[i - 1] = (k, v);
            assert(fields_view(o@) =~= fs.update(i - 1, (k@, v@)));
            return ;
        }
        i -= 1;
    }
    let mut p: usize = o.len();
    while p > 0 && !text_less(o[p - 1].0.as_str(), k.as_str())
        invariant
            p <= o@.len(),
            o@ == old(o)@,
            fs == fields_view(o@),
            forall|j: int| p <= j < o@.len() ==> !text::text_lt((#[trigger] fs[j]).0, k@),
        decreases p,
    {
        assert(fs[p - 1].0 == o@[p - 1].0@);
        p -= 1;
    }
    proof {
        if p > 0 {
            assert(fs[p - 1].0 == o@[p - 1].0@);
        }
        lemma_insert_at(fs, k@, v@, p as int);
    }
    o.insert(p, (k, v));
    assert(fields_view(o@) =~= fs.insert(p as int, (k@, v@)));
}

/// Members in the order of their names, each name once.
pub open spec fn ordered_fields(o: Seq<(Seq<char>, JsonV)>) -> bool {
    forall|i: int, j: int|
        0 <= i < j < o.len() ==> text::text_lt((#[trigger] o[i]).0, (#[trigger] o[j]).0)
}

proof fn lemma_field_found(o: Seq<(Seq<char>, JsonV)>, k: Seq<char>)
    ensures
        field(o, k) is Some <==> exists|i: int| 0 <= i < o.len() && (#[trigger] o[i]).0 == k,
    decreases o.len(),
{
    if o.len() > 0 {
        let front = o.drop_last();
        lemma_field_found(front, k);
        if field(o, k) is Some {
            if o.last().0 == k {
                assert(o[o.len() - 1].0 == k);
            } else {
                let i = choose|i: int| 0 <= i < front.len() && (#[trigger] front[i]).0 == k;
                assert(o[i].0 == k);
            }
        }
        if exists|i: int| 0 <= i < o.len() && (#[trigger] o[i]).0 == k {
            let i = choose|i: int| 0 <= i < o.len() && (#[trigger] o[i]).0 == k;
            if i < front.len() {
                assert(front[i].0 == k);
            }
        }
    }
}

proof fn lemma_insert_ordered(o: Seq<(Seq<char>, JsonV)>, k: Seq<char>, v: JsonV)
    requires
        ordered_fields(o),
        field(o, k) is None,
    ensures
        ordered_fields(insert_field(o, k, v)),
        forall|i: int|
            0 <= i < insert_field(o, k, v).len() ==> (#[trigger] insert_field(o, k, v)[i]).0 == k
                || exists|j: int| 0 <= j < o.len() && (#[trigger] o[j]).0 == insert_field(
                o,
                k,
                v,
            )[i].0,
    decreases o.len(),
{
    let r = insert_field(o, k, v);
    if o.len() == 0 {
    } else if text::text_lt(o.last().0, k) {
        assert forall|i: int, j: int| 0 <= i < j < r.len() implies text::text_lt(
            (#[trigger] r[i]).0,
            (#[trigger] r[j]).0,
        ) by {
            if j == o.len() && i < o.len() - 1 {
                assert(text::text_lt(o[i].0, o[o.len() - 1].0));
                text::lemma_text_lt_trans(o[i].0, o.last().0, k);
            }
        }
        assert forall|i: int| 0 <= i < r.len() implies (#[trigger] r[i]).0 == k || exists|j: int|
            0 <= j < o.len() && (#[trigger] o[j]).0 == r[i].0 by {
            if i < o.len() {
                assert(o[i].0 == r[i].0);
            }
        }
    } else {
        let front = o.drop_last();
        lemma_field_found(o, k);
        lemma_field_found(front, k);
        assert(o[o.len() - 1].0 != k);
        if field(front, k) is Some {
            let i = choose|i: int| 0 <= i < front.len() && (#[trigger] front[i]).0 == k;
            assert(o[i].0 == k);
        }
        lemma_insert_ordered(front, k, v);
        let q = insert_field(front, k, v);
        text::lemma_text_lt_total(o.last().0, k);
        assert forall|i: int, j: int| 0 <= i < j < r.len() implies text::text_lt(
            (#[trigger] r[i]).0,
            (#[trigger] r[j]).0,
        ) by {
            if j < q.len() {
                assert(text::text_lt(q[i].0, q[j].0));
            } else if q[i].0 != k {
                let m = choose|m: int| 0 <= m < front.len() && (#[trigger] front[m]).0 == q[i].0;
                assert(text::text_lt(o[m].0, o[o.len() - 1].0));
            }
        }
        assert forall|i: int| 0 <= i < r.len() implies (#[trigger] r[i]).0 == k || exists|j: int|
            0 <= j < o.len() && (#[trigger] o[j]).0 == r[i].0 by {
            if i < q.len() {
                if q[i].0 != k {
                    let m = choose|m: int|
                        0 <= m < front.len() && (#[trigger] front[m]).0 == q[i].0;
                    assert(o[m].0 == r[i].0);
                }
            } else {
                assert(o[o.len() - 1].0 == r[i].0);
            }
        }
    }
}

proof fn lemma_replace_keeps_names(o: Seq<(Seq<char>, JsonV)>, k: Seq<char>, v: JsonV)
    ensures
        replace_field(o, k, v).len() == o.len(),
        forall|i: int| 0 <= i < o.len() ==> (#[trigger] replace_field(o, k, v)[i]).0 == o[i].0,
    decreases o.len(),
{
    if o.len() > 0 && o.last().0 != k {
        lemma_replace_keeps_names(o.drop_last(), k, v);
    }
}

/// Sorted members are in the order of their names.
pub proof fn lemma_sorted_ordered(o: Seq<(Seq<char>, JsonV)>)
    ensures
        ordered_fields(sorted_fields(o)),
    decreases o.len(),
{
    if o.len() > 0 {
        lemma_sorted_ordered(o.drop_last());
        let before = sorted_fields(o.drop_last());
        let k = o.last().0;
        let v = json_sorted(o.last().1);
        if field(before, k) is Some {
            lemma_replace_keeps_names(before, k, v);
            let r = replace_field(before, k, v);
            assert forall|i: int, j: int| 0 <= i < j < r.len() implies text::text_lt(
                (#[trigger] r[i]).0,
                (#[trigger] r[j]).0,
            ) by {
                assert(text::text_lt(before[i].0, before[j].0));
            }
        } else {
            lemma_insert_ordered(before, k, v);
        }
    }
}

/// Ordered members that hold the same under every name are the same members.
proof fn lemma_same_members(a: Seq<(Seq<char>, JsonV)>, b: Seq<(Seq<char>, JsonV)>)
    requires
        ordered_fields(a),
        ordered_fields(b),
        forall|k: Seq<char>| #[trigger] field(a, k) == field(b, k),
    ensures
        a == b,
    decreases a.len() + b.len(),
{
    if a.len() == 0 && b.len() == 0 {
        assert(a =~= b);
    } else if a.len() == 0 {
        assert(field(a, b.last().0) == field(b, b.last().0));
    } else if b.len() == 0 {
        assert(field(a, a.last().0) == field(b, a.last().0));
    } else {
        let ka = a.last().0;
        let kb = b.last().0;
        assert(field(a, ka) == field(b, ka));
        assert(field(a, kb) == field(b, kb));
        lemma_field_found(b, ka);
        lemma_field_found(a, kb);
        let i = choose|i: int| 0 <= i < b.len() && (#[trigger] b[i]).0 == ka;
        let j = choose|j: int| 0 <= j < a.len() && (#[trigger] a[j]).0 == kb;
        if i < b.len() - 1 {
            assert(text::text_lt(b[i].0, b[b.len() - 1].0));
            if j < a.len() - 1 {
                assert(text::text_lt(a[j].0, a[a.len() - 1].0));
            }
            text::lemma_text_lt_total(ka, kb);
        }
        assert(ka == kb);
        let fa = a.drop_last();
        let fb = b.drop_last();
        assert forall|k: Seq<char>| #[trigger] field(fa, k) == field(fb, k) by {
            assert(field(a, k) == field(b, k));
            if k == ka {
                lemma_field_found(fa, k);
                lemma_field_found(fb, k);
                text::lemma_text_lt_total(k, k);
                if field(fa, k) is Some {
                    let m = choose|m: int| 0 <= m < fa.len() && (#[trigger] fa[m]).0 == k;
                    assert(text::text_lt(a[m].0, a[a.len() - 1].0));
                }
                if field(fb, k) is Some {
                    let m = choose|m: int| 0 <= m < fb.len() && (#[trigger] fb[m]).0 == k;
                    assert(text::text_lt(b[m].0, b[b.len() - 1].0));
                }
            }
        }
        assert(ordered_fields(fa)) by {
            assert forall|x: int, y: int| 0 <= x < y < fa.len() implies text::text_lt(
                (#[trigger] fa[x]).0,
                (#[trigger] fa[y]).0,
            ) by {
                assert(text::text_lt(a[x].0, a[y].0));
            }
        }
        assert(ordered_fields(fb)) by {
            assert forall|x: int, y: int| 0 <= x < y < fb.len() implies text::text_lt(
                (#[trigger] fb[x]).0,
                (#[trigger] fb[y]).0,
            ) by {
                assert(text::text_lt(b[x].0, b[y].0));
            }
        }
        lemma_same_members(fa, fb);
        assert(a =~= fa.push(a.last()));
        assert(b =~= fb.push(b.last()));
    }
}

/// The order of members makes no difference: two objects that hold the same under
/// every name have the same canonical text.
pub proof fn order_of_members_makes_no_difference(
    a: Seq<(Seq<char>, JsonV)>,
    b: Seq<(Seq<char>, JsonV)>,
)
    requires
        forall|k: Seq<char>| #[trigger] field(a, k) == field(b, k),
    ensures
        json_sorted(JsonV::Obj(a)) == json_sorted(JsonV::Obj(b)),
        canonical_text(JsonV::Obj(a)) == canonical_text(JsonV::Obj(b)),
{
    lemma_sorted_ordered(a);
    lemma_sorted_ordered(b);
    assert forall|k: Seq<char>| #[trigger]
        field(sorted_fields(a), k) == field(sorted_fields(b), k) by {
        assert(field(a, k) == field(b, k));
        lemma_field_sorted(a, k);
        lemma_field_sorted(b, k);
    }
    lemma_same_members(sorted_fields(a), sorted_fields(b));
}

} // verus!
