//! Record files: a JSON array of documents, or one document per line.

use crate::json;
use crate::json::{parse_json, Json, JsonV};
use crate::text;
use crate::text::{chars_of, split_text, text_of};
use vstd::prelude::*;

verus! {

pub open spec fn is_blank(s: Seq<char>) -> bool {
    forall|i: int| 0 <= i < s.len() ==> text::whitespace(#[trigger] s[i])
}

/// Whether the first character that is not white space is `c`.
pub open spec fn opens_with(s: Seq<char>, c: char) -> bool
    decreases s.len(),
{
    s.len() > 0 && if text::whitespace(s[0]) {
        opens_with(s.drop_first(), c)
    } else {
        s[0] == c
    }
}

/// A line without the carriage return at its end, if there is one.
pub open spec fn without_cr(s: Seq<char>) -> Seq<char> {
    if s.len() > 0 && s.last() == '\r' {
        s.drop_last()
    } else {
        s
    }
}

/// The lines of a text. A line ends at a line feed, or at a carriage return
/// and a line feed.
pub open spec fn lines(s: Seq<char>) -> Seq<Seq<char>> {
    let pieces = text::split_char(s, '\n');
    Seq::new(
        pieces.len(),
        |i: int|
            if i < pieces.len() - 1 {
                without_cr(pieces[i])
            } else {
                pieces[i]
            },
    )
}

pub open spec fn not_blank() -> spec_fn(Seq<char>) -> bool {
    |s: Seq<char>| !is_blank(s)
}

/// The documents of a list of texts, or the message of the first text that
/// is none.
pub open spec fn parse_each(texts: Seq<Seq<char>>) -> Result<Seq<JsonV>, Seq<char>>
    decreases texts.len(),
{
    if texts.len() == 0 {
        Ok(Seq::empty())
    } else {
        match parse_each(texts.drop_last()) {
            Ok(before) => match json::json_parse(texts.last()) {
                Ok(v) => Ok(before.push(v)),
                Err(e) => Err(e),
            },
            Err(e) => Err(e),
        }
    }
}

pub open spec fn not_a_list() -> Seq<char> {
    "expected a list of records"@
}

/// The documents of a record file: the elements of the array where the text
/// opens with `[`, else the documents of the lines that are not blank.
pub open spec fn documents_of(s: Seq<char>) -> Result<Seq<JsonV>, Seq<char>> {
    if opens_with(s, '[') {
        match json::json_parse(s) {
            Ok(v) => match v {
                JsonV::Arr(a) => Ok(a),
                _ => Err(not_a_list()),
            },
            Err(e) => Err(e),
        }
    } else {
        parse_each(lines(s).filter(not_blank()))
    }
}

/// Whether a text is white space only.
pub fn blank(s: &str) -> (res: bool)
    ensures
        res == is_blank(s@),
{
    let v = chars_of(s);
    let mut i: usize = 0;
    while i < v.len()
        invariant
            i <= v@.len(),
            v@ == s@,
            forall|j: int| 0 <= j < i ==> text::whitespace(#[trigger] v@[j]),
        decreases v@.len() - i,
    {
        if !v[i].is_whitespace() {
            assert(!text::whitespace(s@[i as int]));
            return false;
        }
        i += 1;
    }
    true
}

fn opens(s: &str, c: char) -> (res: bool)
    ensures
        res == opens_with(s@, c),
{
    let v = chars_of(s);
    let mut i: usize = 0;
    assert(v@.skip(0) =~= v@);
    while i < v.len()
        invariant
            i <= v@.len(),
            v@ == s@,
            opens_with(s@, c) == opens_with(v@.skip(i as int), c),
        decreases v@.len() - i,
    {
        assert(v@.skip(i as int).drop_first() =~= v@.skip(i + 1));
        if !v[i].is_whitespace() {
            return v[i] == c;
        }
        i += 1;
    }
    false
}

fn strip_cr(s: &str) -> (res: String)
    ensures
        res@ == without_cr(s@),
{
    let v = chars_of(s);
    let n: usize = v.len();
    if n > 0 && v[n - 1] == '\r' {
        assert(v@.subrange(0, n - 1) =~= v@.drop_last());
        text_of(&v, 0, n - 1)
    } else {
        s.to_owned()
    }
}

/// The lines of a text.
pub fn lines_of(s: &str) -> (res: Vec<String>)
    ensures
        text::views(res@) == lines(s@),
{
    let pieces = split_text(s, '\n');
    let mut out: Vec<String> = Vec::new();
    let mut i: usize = 0;
    let ghost all = lines(s@);
    while i < pieces.len()
        invariant
            i <= pieces@.len(),
            text::views(pieces@) == text::split_char(s@, '\n'),
            all == lines(s@),
            out@.len() == i,
            forall|j: int| 0 <= j < i ==> (#[trigger] out@[j])@ == all[j],
        decreases pieces@.len() - i,
    {
        assert(text::views(pieces@)[i as int] == pieces@[i as int]@);
        if i + 1 < pieces.len() {
            out.push(strip_cr(pieces[i].as_str()));
        } else {
            out.push(pieces[i].clone());
        }
        i += 1;
    }
    assert(text::views(out@) =~= all);
    out
}

/// The documents of a record file.
pub fn documents(s: &str) -> (res: Result<Vec<Json>, String>)
    ensures
        match res {
            Ok(v) => documents_of(s@) == Ok::<Seq<JsonV>, Seq<char>>(json::items_view(v@)),
            Err(e) => documents_of(s@) == Err::<Seq<JsonV>, Seq<char>>(e@),
        },
{
    if opens(s, '[') {
        return match parse_json(s) {
            Ok(j) => {
                proof {
                    json::lemma_json_view(j);
                }
                match j {
                    Json::Arr(a) => Ok(a),
                    _ => Err("expected a list of records".to_owned()),
                }
            },
            Err(e) => Err(e),
        };
    }
    let ls = lines_of(s);
    let ghost all = lines(s@);
    let ghost p = not_blank();
    let ghost kept = all.filter(p);
    let mut out: Vec<Json> = Vec::new();
    let mut i: usize = 0;
    proof {
        reveal(Seq::filter);
        assert(json::items_view(out@) =~= Seq::empty());
    }
    while i < ls.len()
        invariant
            i <= ls@.len(),
            text::views(ls@) == all,
            p == not_blank(),
            kept == all.filter(p),
            documents_of(s@) == parse_each(kept),
            parse_each(all.take(i as int).filter(p)) == Ok::<Seq<JsonV>, Seq<char>>(
                json::items_view(out@),
            ),
        decreases ls@.len() - i,
    {
        let l = ls[i].as_str();
        let ghost done = all.take(i as int).filter(p);
        proof {
            assert(all[i as int] == l@);
            crate::query::lemma_filter_step(all, i as int, p);
            assert(done.push(l@).drop_last() =~= done);
        }
        if !blank(l) {
            match parse_json(l) {
                Ok(j) => {
                    let ghost o = out@;
                    out.push(j);
                    assert(json::items_view(out@) =~= json::items_view(o).push(j@));
                },
                Err(e) => {
                    proof {
                        lemma_filter_rest(all, i + 1, p);
                        lemma_parse_each_fails(done.push(l@), all.skip(i + 1).filter(p), e@);
                    }
                    return Err(e);
                },
            }
        }
        i += 1;
    }
    assert(all.take(all.len() as int) =~= all);
    Ok(out)
}

proof fn lemma_filter_rest(s: Seq<Seq<char>>, k: int, p: spec_fn(Seq<char>) -> bool)
    requires
        0 <= k <= s.len(),
    ensures
        s.filter(p) == s.take(k).filter(p) + s.skip(k).filter(p),
{
    assert(s =~= s.take(k) + s.skip(k));
    Seq::filter_distributes_over_add(s.take(k), s.skip(k), p);
}

proof fn lemma_parse_each_fails(a: Seq<Seq<char>>, b: Seq<Seq<char>>, e: Seq<char>)
    requires
        parse_each(a) == Err::<Seq<JsonV>, Seq<char>>(e),
    ensures
        parse_each(a + b) == Err::<Seq<JsonV>, Seq<char>>(e),
    decreases b.len(),
{
    if b.len() == 0 {
        assert(a + b =~= a);
    } else {
        assert((a + b).drop_last() =~= a + b.drop_last());
        lemma_parse_each_fails(a, b.drop_last(), e);
    }
}

/// The part of a record that is named `k` in an object and stands at `pos` in
/// an array.
pub open spec fn part_of(v: JsonV, k: Seq<char>, pos: int) -> Option<JsonV> {
    match v {
        JsonV::Obj(o) => json::field(o, k),
        JsonV::Arr(a) => if 0 <= pos < a.len() {
            Some(a[pos])
        } else {
            None
        },
        _ => None,
    }
}

/// A record is an object, or an array of at most `max` parts.
pub open spec fn is_record(v: JsonV, max: nat) -> bool {
    match v {
        JsonV::Obj(_) => true,
        JsonV::Arr(a) => a.len() <= max,
        _ => false,
    }
}

/// A part that has to be a string.
pub open spec fn text_part(v: Option<JsonV>) -> Option<Seq<char>> {
    match v {
        Some(JsonV::Str(s)) => Some(s),
        _ => None,
    }
}

/// A part that may be absent or null, and has to be a string otherwise: `None`
/// where it is something else.
pub open spec fn label_part(v: Option<JsonV>) -> Option<Option<Seq<char>>> {
    match v {
        None => Some(None),
        Some(JsonV::Null) => Some(None),
        Some(JsonV::Str(s)) => Some(Some(s)),
        _ => None,
    }
}

pub open spec fn json_opt(v: Option<&Json>) -> Option<JsonV> {
    match v {
        Some(j) => Some(j@),
        None => None,
    }
}

impl Json {
    /// Whether the document is an object, or an array of at most `max` parts.
    pub fn record(&self, max: usize) -> (res: bool)
        ensures
            res == is_record(self@, max as nat),
    {
        proof {
            json::lemma_json_view(*self);
        }
        match self {
            Json::Obj(_) => true,
            Json::Arr(a) => a.len() <= max,
            _ => false,
        }
    }

    /// The part of a record that is named `k`, or stands at `pos`.
    pub fn part(&self, k: &str, pos: usize) -> (res: Option<&Json>)
        ensures
            json_opt(res) == part_of(self@, k@, pos as int),
    {
        proof {
            json::lemma_json_view(*self);
        }
        match self {
            Json::Obj(_) => self.get(k),
            Json::Arr(a) => if pos < a.len() {
                Some(&a[pos])
            } else {
                None
            },
            _ => None,
        }
    }
}

/// A part that has to be a string.
pub fn text_of_part(v: Option<&Json>) -> (res: Option<String>)
    ensures
        match res {
            Some(s) => text_part(json_opt(v)) == Some(s@),
            None => text_part(json_opt(v)) is None,
        },
{
    match v {
        Some(Json::Str(s)) => Some(s.clone()),
        _ => None,
    }
}

/// A part that may be absent or null, and has to be a string otherwise.
pub fn label_of_part(v: Option<&Json>) -> (res: Option<Option<String>>)
    ensures
        match res {
            Some(s) => label_part(json_opt(v)) == Some(crate::graph::label_view(s)),
            None => label_part(json_opt(v)) is None,
        },
{
    match v {
        None => Some(None),
        Some(Json::Null) => Some(None),
        Some(Json::Str(s)) => Some(Some(s.clone())),
        _ => None,
    }
}

} // verus!
