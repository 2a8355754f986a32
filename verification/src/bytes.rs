//! Bytes as lines: a file is read line by line, and a line need not be text.

use crate::text;
use vstd::prelude::*;
use vstd::utf8;

verus! {

/// The lines of bytes, without the line feeds between them.
pub open spec fn lines(b: Seq<u8>) -> Seq<Seq<u8>>
    decreases b.len(),
{
    if b.len() == 0 {
        seq![Seq::empty()]
    } else {
        let before = lines(b.drop_last());
        if b.last() == 10 {
            before.push(Seq::empty())
        } else {
            before.drop_last().push(before.last().push(b.last()))
        }
    }
}

/// The text that bytes are in UTF-8, if they are.
pub open spec fn as_text(b: Seq<u8>) -> Option<Seq<char>> {
    if utf8::valid_utf8(b) {
        Some(utf8::decode_utf8(b))
    } else {
        None
    }
}

/// The bytes of a text.
pub open spec fn encoded() -> spec_fn(Seq<char>) -> Seq<u8> {
    |s: Seq<char>| utf8::encode_utf8(s)
}

pub open spec fn byte_views(v: Seq<Vec<u8>>) -> Seq<Seq<u8>> {
    v.map_values(|x: Vec<u8>| x@)
}

/// The bytes of lines with a line feed after each.
pub open spec fn lines_size(pieces: Seq<Seq<u8>>) -> nat
    decreases pieces.len(),
{
    if pieces.len() == 0 {
        0
    } else {
        lines_size(pieces.drop_last()) + pieces.last().len() + 1
    }
}

/// The text of those lines that are text, with a line feed between them.
pub open spec fn readable(ls: Seq<Seq<u8>>) -> Option<Seq<char>>
    decreases ls.len(),
{
    if ls.len() == 0 {
        None
    } else {
        match (readable(ls.drop_last()), as_text(ls.last())) {
            (None, t) => t,
            (Some(before), Some(t)) => Some(before + seq!['\n'] + t),
            (Some(before), None) => Some(before),
        }
    }
}

/// What of bytes is text, line by line. Lines that are none are left out.
pub open spec fn readable_text(b: Seq<u8>) -> Seq<char> {
    match readable(lines(b)) {
        Some(s) => s,
        None => Seq::empty(),
    }
}

/// `String::from_utf8`: the text of bytes that are valid UTF-8, and an error for
/// all others.
#[verifier::external_body]
fn from_utf8(b: Vec<u8>) -> (res: Option<String>)
    ensures
        match res {
            Some(s) => as_text(b@) == Some(s@),
            None => as_text(b@) is None,
        },
{
    String::from_utf8(b).ok()
}

/// The text that bytes are in UTF-8, if they are.
pub fn text_of_bytes(b: &Vec<u8>) -> (res: Option<String>)
    ensures
        match res {
            Some(s) => as_text(b@) == Some(s@),
            None => as_text(b@) is None,
        },
{
    let mut copy: Vec<u8> = Vec::new();
    let mut i: usize = 0;
    while i < b.len()
        invariant
            i <= b@.len(),
            copy@ == b@.take(i as int),
        decreases b@.len() - i,
    {
        copy.push(b[i]);
        i += 1;
        assert(b@.take(i as int) =~= b@.take(i - 1).push(b@[i - 1]));
    }
    assert(b@.take(b@.len() as int) =~= b@);
    from_utf8(copy)
}

/// What of bytes is text, line by line. Lines that are none are left out.
pub fn text_lines(b: &[u8]) -> (res: String)
    ensures
        res@ == readable_text(b@),
{
    let ls = lines_of_bytes(b);
    let ghost all = lines(b@);
    let mut out = String::new();
    let mut some = false;
    let mut i: usize = 0;
    assert(all.take(0) =~= Seq::empty());
    while i < ls.len()
        invariant
            i <= ls@.len(),
            byte_views(ls@) == all,
            all == lines(b@),
            readable(all.take(i as int)) == (if some {
                Some(out@)
            } else {
                None::<Seq<char>>
            }),
            !some ==> out@ == Seq::<char>::empty(),
        decreases ls@.len() - i,
    {
        proof {
            assert(all[i as int] == ls@[i as int]@);
            assert(all.take(i + 1).drop_last() =~= all.take(i as int));
            assert(all.take(i + 1).last() == ls@[i as int]@);
        }
        match text_of_bytes(&ls[i]) {
            Some(t) => {
                let ghost before = out@;
                if some {
                    out.append("\n");
                }
                out.append(t.as_str());
                proof {
                    reveal_strlit("\n");
                    assert(some ==> out@ =~= before + seq!['\n'] + t@);
                    assert(!some ==> out@ =~= t@);
                }
                some = true;
            },
            None => {},
        }
        i += 1;
    }
    assert(all.take(all.len() as int) =~= all);
    out
}

/// The lines of bytes.
pub fn lines_of_bytes(b: &[u8]) -> (res: Vec<Vec<u8>>)
    ensures
        byte_views(res@) == lines(b@),
        lines_size(lines(b@)) == b@.len() + 1,
{
    let mut out: Vec<Vec<u8>> = Vec::new();
    let mut cur: Vec<u8> = Vec::new();
    let mut i: usize = 0;
    assert(byte_views(out@).push(cur@) =~= lines(b@.take(0)));
    while i < b.len()
        invariant
            i <= b@.len(),
            byte_views(out@).push(cur@) == lines(b@.take(i as int)),
        decreases b@.len() - i,
    {
        let x = b[i];
        let ghost before = lines(b@.take(i as int));
        let ghost o = out@;
        proof {
            assert(b@.take(i + 1).drop_last() =~= b@.take(i as int));
            assert(b@.take(i + 1).last() == x);
            assert(before.drop_last() =~= byte_views(o));
            assert(before.last() == cur@);
        }
        if x == 10 {
            out.push(cur);
            cur = Vec::new();
            assert(byte_views(out@) =~= before);
        } else {
            cur.push(x);
        }
        i += 1;
    }
    let ghost o = out@;
    out.push(cur);
    proof {
        assert(byte_views(out@) =~= byte_views(o).push(cur@));
        assert(b@.take(b@.len() as int) =~= b@);
        lemma_lines_size(b@);
    }
    out
}

pub proof fn lemma_lines_nonempty(b: Seq<u8>)
    ensures
        lines(b).len() >= 1,
    decreases b.len(),
{
    if b.len() > 0 {
        lemma_lines_nonempty(b.drop_last());
    }
}

/// Bytes are their lines with a line feed between each two.
pub proof fn lemma_lines_size(b: Seq<u8>)
    ensures
        lines_size(lines(b)) == b.len() + 1,
    decreases b.len(),
{
    let ps = lines(b);
    if b.len() == 0 {
        assert(ps.drop_last() =~= Seq::empty());
        assert(lines_size(ps.drop_last()) == 0);
    } else {
        lemma_lines_size(b.drop_last());
        lemma_lines_nonempty(b.drop_last());
        let before = lines(b.drop_last());
        if b.last() == 10 {
            assert(ps.drop_last() =~= before);
        } else {
            assert(ps.drop_last() =~= before.drop_last());
        }
    }
}

pub proof fn lemma_size_prefix(ps: Seq<Seq<u8>>, k: int)
    requires
        0 <= k <= ps.len(),
    ensures
        lines_size(ps.take(k)) <= lines_size(ps),
        k < ps.len() ==> lines_size(ps.take(k)) + ps[k].len() + 1 <= lines_size(ps),
    decreases ps.len() - k,
{
    if k == ps.len() {
        assert(ps.take(k) =~= ps);
    } else {
        lemma_size_prefix(ps, k + 1);
        assert(ps.take(k + 1).drop_last() =~= ps.take(k));
    }
}

/// Bytes without a line feed extend the last line.
pub proof fn lemma_lines_extend(a: Seq<u8>, b: Seq<u8>)
    requires
        forall|i: int| 0 <= i < b.len() ==> #[trigger] b[i] != 10,
    ensures
        lines(a + b) == lines(a).drop_last().push(lines(a).last() + b),
    decreases b.len(),
{
    let ps = lines(a);
    lemma_lines_nonempty(a);
    if b.len() == 0 {
        assert(a + b =~= a);
        assert(ps.last() + b =~= ps.last());
        assert(ps.drop_last().push(ps.last()) =~= ps);
    } else {
        let front = b.drop_last();
        lemma_lines_extend(a, front);
        assert((a + b).drop_last() =~= a + front);
        assert((a + b).last() == b.last());
        assert(b[b.len() - 1] != 10);
        let qs = ps.drop_last().push(ps.last() + front);
        assert(qs.drop_last() =~= ps.drop_last());
        assert((ps.last() + front).push(b.last()) =~= ps.last() + b);
    }
}

/// A line feed starts another line.
pub proof fn lemma_lines_feed(a: Seq<u8>)
    ensures
        lines(a + seq![10u8]) == lines(a).push(Seq::empty()),
{
    assert((a + seq![10u8]).drop_last() =~= a);
    assert((a + seq![10u8]).last() == 10);
}

/// What comes after a line feed is lines of its own.
pub proof fn lemma_lines_join(a: Seq<u8>, b: Seq<u8>)
    ensures
        lines(a + seq![10u8] + b) == lines(a) + lines(b),
    decreases b.len(),
{
    let l = a + seq![10u8];
    if b.len() == 0 {
        lemma_lines_feed(a);
        assert(l + b =~= l);
        assert(lines(a) + lines(b) =~= lines(a).push(Seq::empty()));
    } else {
        let front = b.drop_last();
        lemma_lines_join(a, front);
        lemma_lines_nonempty(front);
        assert((l + b).drop_last() =~= l + front);
        assert((l + b).last() == b.last());
        let all = lines(a) + lines(front);
        assert(all.last() == lines(front).last());
        assert(all.drop_last() =~= lines(a) + lines(front).drop_last());
        assert(lines(l + b) =~= lines(a) + lines(b));
    }
}

/// Only a line feed is written with the byte of a line feed.
proof fn lemma_scalar_bytes(c: char)
    ensures
        c == '\n' ==> utf8::encode_scalar(c as u32) == seq![10u8],
        c != '\n' ==> forall|i: int|
            0 <= i < utf8::encode_scalar(c as u32).len() ==> #[trigger] utf8::encode_scalar(
                c as u32,
            )[i] != 10,
{
    let v = c as u32;
    assert(v <= 0x7f ==> (v & 0x7f) as u8 == v) by (bit_vector);
    assert((0xC0u8 | ((v >> 6) & 0x1F) as u8) != 10) by (bit_vector);
    assert((0xE0u8 | ((v >> 12) & 0x0F) as u8) != 10) by (bit_vector);
    assert((0xF0u8 | ((v >> 18) & 0x7) as u8) != 10) by (bit_vector);
    assert((0x80u8 | (v & 0x3F) as u8) != 10) by (bit_vector);
    assert((0x80u8 | ((v >> 6) & 0x3F) as u8) != 10) by (bit_vector);
    assert((0x80u8 | ((v >> 12) & 0x3F) as u8) != 10) by (bit_vector);
    if c == '\n' {
        assert(v == 10);
        assert(utf8::encode_scalar(v) =~= seq![10u8]);
    }
}

/// The lines of a text in UTF-8 are its lines.
pub proof fn lemma_lines_encoded(s: Seq<char>)
    ensures
        lines(utf8::encode_utf8(s)) == text::split_char(s, '\n').map_values(encoded()),
    decreases s.len(),
{
    let ps = text::split_char(s, '\n');
    let f = encoded();
    if s.len() == 0 {
        assert(utf8::encode_utf8(s) =~= Seq::empty());
        assert(ps =~= seq![Seq::<char>::empty()]);
        assert(utf8::encode_utf8(Seq::<char>::empty()) =~= Seq::empty());
        assert(ps.map_values(f) =~= seq![Seq::<u8>::empty()]);
    } else {
        let front = s.drop_last();
        let c = s.last();
        let before = text::split_char(front, '\n');
        lemma_lines_encoded(front);
        text::lemma_split_nonempty(front, text::equals('\n'));
        lemma_encode_push(front, c);
        assert(front.push(c) =~= s);
        lemma_scalar_bytes(c);
        let e = utf8::encode_utf8(front);
        if c == '\n' {
            lemma_lines_feed(e);
            assert(utf8::encode_utf8(Seq::<char>::empty()) =~= Seq::empty());
            assert(ps.map_values(f) =~= before.map_values(f).push(Seq::empty()));
        } else {
            lemma_lines_extend(e, utf8::encode_scalar(c as u32));
            lemma_encode_push(before.last(), c);
            assert(before.map_values(f).last() == utf8::encode_utf8(before.last()));
            assert(ps.map_values(f) =~= before.map_values(f).drop_last().push(
                before.map_values(f).last() + utf8::encode_scalar(c as u32),
            ));
        }
    }
}

proof fn lemma_encode_push(s: Seq<char>, c: char)
    ensures
        utf8::encode_utf8(s.push(c)) == utf8::encode_utf8(s) + utf8::encode_scalar(c as u32),
{
    text::lemma_encode_concat(s, seq![c]);
    assert(s + seq![c] =~= s.push(c));
    reveal_with_fuel(utf8::encode_utf8, 2);
    assert(seq![c].drop_first() =~= Seq::empty());
    assert(utf8::encode_utf8(seq![c]) =~= utf8::encode_scalar(c as u32));
}

/// A text is read from its bytes.
pub proof fn lemma_encoded_text(s: Seq<char>)
    ensures
        as_text(utf8::encode_utf8(s)) == Some(s),
{
    utf8::encode_utf8_valid_utf8(s);
    utf8::encode_utf8_decode_utf8(s);
}

/// All of a text in UTF-8 is text.
pub proof fn lemma_readable_encoded(s: Seq<char>)
    ensures
        readable_text(utf8::encode_utf8(s)) == s,
{
    lemma_readable_pieces(s);
    lemma_lines_encoded(s);
}

proof fn lemma_readable_pieces(s: Seq<char>)
    ensures
        readable(text::split_char(s, '\n').map_values(encoded())) == Some(s),
    decreases s.len(),
{
    let f = encoded();
    let ps = text::split_char(s, '\n');
    if s.len() == 0 {
        assert(ps =~= seq![Seq::<char>::empty()]);
        let all = ps.map_values(f);
        assert(all.drop_last() =~= Seq::empty());
        assert(all.last() == utf8::encode_utf8(Seq::<char>::empty()));
        lemma_encoded_text(Seq::empty());
        assert(s =~= Seq::empty());
        assert(readable(all.drop_last()) is None);
    } else {
        let front = s.drop_last();
        let c = s.last();
        let before = text::split_char(front, '\n');
        lemma_readable_pieces(front);
        text::lemma_split_nonempty(front, text::equals('\n'));
        assert(front.push(c) =~= s);
        if c == '\n' {
            lemma_encoded_text(Seq::empty());
            assert(ps.map_values(f).drop_last() =~= before.map_values(f));
            assert(ps.map_values(f).last() == utf8::encode_utf8(Seq::<char>::empty()));
            assert(front + seq!['\n'] + Seq::<char>::empty() =~= s);
        } else {
            let last = before.last();
            lemma_encoded_text(last);
            lemma_encoded_text(last.push(c));
            assert(ps.map_values(f).drop_last() =~= before.map_values(f).drop_last());
            assert(ps.map_values(f).last() == utf8::encode_utf8(last.push(c)));
            assert(before.map_values(f).last() == utf8::encode_utf8(last));
            match readable(before.map_values(f).drop_last()) {
                Some(x) => {
                    assert(x + seq!['\n'] + last.push(c) =~= (x + seq!['\n'] + last).push(c));
                },
                None => {},
            }
        }
    }
}

} // verus!
