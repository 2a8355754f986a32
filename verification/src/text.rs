//! Text as sequences of characters: splitting, prefixes, decimal numbers.

use vstd::prelude::*;
use vstd::utf8;

verus! {

/// Whether `char::is_alphanumeric` holds of a character.
pub uninterp spec fn alphanumeric(c: char) -> bool;

/// The characters that have the Unicode property `White_Space`.
pub open spec fn whitespace(c: char) -> bool {
    ||| '\u{9}' <= c <= '\u{d}'
    ||| c == '\u{20}'
    ||| c == '\u{85}'
    ||| c == '\u{a0}'
    ||| c == '\u{1680}'
    ||| '\u{2000}' <= c <= '\u{200a}'
    ||| c == '\u{2028}'
    ||| c == '\u{2029}'
    ||| c == '\u{202f}'
    ||| c == '\u{205f}'
    ||| c == '\u{3000}'
}

/// What `str::to_lowercase` makes of a text.
pub uninterp spec fn lowercase(s: Seq<char>) -> Seq<char>;

/// What `str::to_uppercase` makes of a text.
pub uninterp spec fn uppercase(s: Seq<char>) -> Seq<char>;

/// `char::is_alphanumeric` answers by the character alone: the Unicode tables
/// that std was built with.
pub assume_specification[ char::is_alphanumeric ](c: char) -> (res: bool)
    ensures
        res == alphanumeric(c),
;

/// `char::is_whitespace` says whether a character has the Unicode property
/// `White_Space`.
pub assume_specification[ char::is_whitespace ](c: char) -> (res: bool)
    ensures
        res == whitespace(c),
;

/// `str::to_lowercase` returns a text that depends on its argument alone.
pub assume_specification[ str::to_lowercase ](s: &str) -> (res: String)
    ensures
        res@ == lowercase(s@),
;

/// `str::to_uppercase` returns a text that depends on its argument alone.
pub assume_specification[ str::to_uppercase ](s: &str) -> (res: String)
    ensures
        res@ == uppercase(s@),
;

/// `String::push` appends the character at the end.
pub assume_specification[ String::push ](s: &mut String, c: char)
    ensures
        final(s)@ == old(s)@.push(c),
;

/// `==` on two texts says whether they hold the same characters.
pub assume_specification[ <str as PartialEq>::eq ](a: &str, b: &str) -> (res: bool)
    ensures
        res == (a@ == b@),
;

/// Whether two texts hold the same characters.
pub fn same_text(a: &str, b: &str) -> (res: bool)
    ensures
        res == (a@ == b@),
{
    *a == *b
}

/// The pieces of `s` between the characters that `sep` holds of.
pub open spec fn split(s: Seq<char>, sep: spec_fn(char) -> bool) -> Seq<Seq<char>>
    decreases s.len(),
{
    if s.len() == 0 {
        seq![Seq::empty()]
    } else {
        let before = split(s.drop_last(), sep);
        if sep(s.last()) {
            before.push(Seq::empty())
        } else {
            before.drop_last().push(before.last().push(s.last()))
        }
    }
}

pub open spec fn equals(c: char) -> spec_fn(char) -> bool {
    |x: char| x == c
}

/// The pieces of `s` between the occurrences of `c`.
pub open spec fn split_char(s: Seq<char>, c: char) -> Seq<Seq<char>> {
    split(s, equals(c))
}

pub proof fn lemma_split_nonempty(s: Seq<char>, sep: spec_fn(char) -> bool)
    ensures
        split(s, sep).len() >= 1,
    decreases s.len(),
{
    if s.len() > 0 {
        lemma_split_nonempty(s.drop_last(), sep);
    }
}

/// Text without a separator extends the last piece.
pub proof fn lemma_split_extend(a: Seq<char>, b: Seq<char>, sep: spec_fn(char) -> bool)
    requires
        forall|i: int| 0 <= i < b.len() ==> !sep(#[trigger] b[i]),
    ensures
        split(a + b, sep) == split(a, sep).drop_last().push(split(a, sep).last() + b),
    decreases b.len(),
{
    let ps = split(a, sep);
    lemma_split_nonempty(a, sep);
    if b.len() == 0 {
        assert(a + b =~= a);
        assert(ps.last() + b =~= ps.last());
        assert(ps.drop_last().push(ps.last()) =~= ps);
    } else {
        let front = b.drop_last();
        assert forall|i: int| 0 <= i < front.len() implies !sep(#[trigger] front[i]) by {
            assert(!sep(b[i]));
        }
        lemma_split_extend(a, front, sep);
        assert(!sep(b[b.len() - 1]));
        assert((a + b).drop_last() =~= a + front);
        assert((a + b).last() == b.last());
        let before = split(a + front, sep);
        assert(before.drop_last() =~= ps.drop_last());
        assert(before.last() == ps.last() + front);
        assert((ps.last() + front).push(b.last()) =~= ps.last() + b);
    }
}

/// The characters of a text.
pub fn chars_of(s: &str) -> (res: Vec<char>)
    ensures
        res@ == s@,
{
    let mut v: Vec<char> = Vec::new();
    for c in it: s.chars()
        invariant
            v@ == s@.take(it.index()),
            it.seq() == s@,
    {
        v.push(c);
        assert(s@.take(it.index() + 1) == s@.take(it.index()).push(c));
    }
    assert(s@.take(s@.len() as int) == s@);
    v
}

/// The text made of `v[from..to]`.
pub fn text_of(v: &Vec<char>, from: usize, to: usize) -> (res: String)
    requires
        from <= to <= v@.len(),
    ensures
        res@ == v@.subrange(from as int, to as int),
{
    let mut s = String::new();
    let mut i: usize = from;
    assert(v@.subrange(from as int, from as int) =~= Seq::<char>::empty());
    while i < to
        invariant
            from <= i <= to <= v@.len(),
            s@ == v@.subrange(from as int, i as int),
        decreases to - i,
    {
        s.push(v[i]);
        assert(v@.subrange(from as int, i + 1) =~= v@.subrange(from as int, i as int).push(v@[i as int]));
        i += 1;
    }
    s
}

pub open spec fn views(v: Seq<String>) -> Seq<Seq<char>> {
    v.map_values(|s: String| s@)
}

/// The pieces of `s` between the occurrences of `c`.
pub fn split_text(s: &str, c: char) -> (res: Vec<String>)
    ensures
        views(res@) == split_char(s@, c),
{
    let v = chars_of(s);
    let mut out: Vec<String> = Vec::new();
    let mut cur = String::new();
    let mut i: usize = 0;
    let ghost sep = equals(c);
    assert(views(out@).push(cur@) =~= split(v@.take(0), sep));
    while i < v.len()
        invariant
            i <= v@.len(),
            sep == equals(c),
            views(out@).push(cur@) == split(v@.take(i as int), sep),
        decreases v@.len() - i,
    {
        let x = v[i];
        proof {
            assert(v@.take(i + 1).drop_last() == v@.take(i as int));
            assert(v@.take(i + 1).last() == x);
            let before = split(v@.take(i as int), sep);
            assert(before.drop_last() =~= views(out@));
            assert(before.last() == cur@);
        }
        if x == c {
            let ghost o = out@;
            out.push(cur);
            assert(views(out@) =~= views(o).push(cur@));
            cur = String::new();
        } else {
            cur.push(x);
        }
        i += 1;
    }
    let ghost o = out@;
    out.push(cur);
    assert(views(out@) =~= views(o).push(cur@));
    assert(v@.take(v@.len() as int) == v@);
    out
}

/// Whether `p` begins `s`.
pub fn has_prefix(s: &str, p: &str) -> (res: bool)
    ensures
        res == p@.is_prefix_of(s@),
{
    let a = chars_of(s);
    let b = chars_of(p);
    if b.len() > a.len() {
        return false;
    }
    let mut i: usize = 0;
    while i < b.len()
        invariant
            i <= b@.len() <= a@.len(),
            a@ == s@,
            b@ == p@,
            forall|j: int| 0 <= j < i ==> a@[j] == b@[j],
        decreases b@.len() - i,
    {
        if a[i] != b[i] {
            assert(a@.subrange(0, b@.len() as int)[i as int] == a@[i as int]);
            return false;
        }
        i += 1;
    }
    assert(b@ =~= a@.subrange(0, b@.len() as int));
    true
}

/// Whether `p` stands in `s` at position `i`.
pub open spec fn stands_at(s: Seq<char>, p: Seq<char>, i: int) -> bool {
    0 <= i && i + p.len() <= s.len() && s.subrange(i, i + p.len()) == p
}

/// Whether `p` stands somewhere in `s`.
pub open spec fn contains_text(s: Seq<char>, p: Seq<char>) -> bool {
    exists|i: int| #[trigger] stands_at(s, p, i)
}

/// Whether `p` stands somewhere in `s`.
pub fn has_infix(s: &str, p: &str) -> (res: bool)
    ensures
        res == contains_text(s@, p@),
{
    let a = chars_of(s);
    let b = chars_of(p);
    if b.len() > a.len() {
        return false;
    }
    let n: usize = a.len();
    let last: usize = n - b.len();
    let mut i: usize = 0;
    while i <= last
        invariant
            n == a@.len(),
            last == n - b@.len(),
            i <= last + 1,
            a@ == s@,
            b@ == p@,
            forall|k: int| 0 <= k < i ==> !#[trigger] stands_at(s@, p@, k),
        decreases last + 1 - i,
    {
        let mut j: usize = 0;
        while j < b.len() && a[i + j] == b[j]
            invariant
                i <= last,
                n == a@.len(),
                last == n - b@.len(),
                j <= b@.len(),
                forall|k: int| 0 <= k < j ==> a@[i + k] == b@[k],
            decreases b@.len() - j,
        {
            j += 1;
        }
        if j == b.len() {
            assert(s@.subrange(i as int, i + p@.len()) =~= p@);
            assert(stands_at(s@, p@, i as int));
            return true;
        }
        assert(!stands_at(s@, p@, i as int)) by {
            assert(s@.subrange(i as int, i + p@.len())[j as int] == a@[i + j]);
        }
        if i == last {
            return false;
        }
        i += 1;
    }
    false
}

/// What follows the prefix `p`, where `p` begins `s`.
pub fn after_prefix(s: &str, p: &str) -> (res: Option<String>)
    ensures
        match res {
            Some(r) => p@.is_prefix_of(s@) && r@ == s@.skip(p@.len() as int),
            None => !p@.is_prefix_of(s@),
        },
{
    if !has_prefix(s, p) {
        return None;
    }
    let a = chars_of(s);
    let n: usize = chars_of(p).len();
    assert(a@.subrange(n as int, a@.len() as int) =~= s@.skip(n as int));
    Some(text_of(&a, n, a.len()))
}

/// The length of a text in UTF-8 bytes.
pub open spec fn utf8_len(s: Seq<char>) -> nat {
    utf8::encode_utf8(s).len()
}

/// The length of a text in UTF-8 bytes.
pub fn byte_len(s: &str) -> (res: usize)
    ensures
        res == utf8_len(s@),
{
    s.as_bytes().len()
}

pub proof fn lemma_encode_concat(a: Seq<char>, b: Seq<char>)
    ensures
        utf8::encode_utf8(a + b) == utf8::encode_utf8(a) + utf8::encode_utf8(b),
    decreases a.len(),
{
    if a.len() == 0 {
        assert(a + b =~= b);
        assert(utf8::encode_utf8(a) + utf8::encode_utf8(b) =~= utf8::encode_utf8(b));
    } else {
        assert((a + b).drop_first() =~= a.drop_first() + b);
        lemma_encode_concat(a.drop_first(), b);
        let head = utf8::encode_scalar(a[0] as u32);
        assert(head + (utf8::encode_utf8(a.drop_first()) + utf8::encode_utf8(b)) =~= (head + utf8::encode_utf8(
            a.drop_first(),
        )) + utf8::encode_utf8(b));
    }
}

/// The decimal digit of a number below ten.
pub open spec fn digit(d: nat) -> char {
    (48 + d) as char
}

/// The decimal digits of a natural number, without leading zeros.
pub open spec fn decimal(n: nat) -> Seq<char>
    decreases n,
{
    if n < 10 {
        seq![digit(n)]
    } else {
        decimal(n / 10).push(digit(n % 10))
    }
}

/// The decimal form of an integer: a minus sign where it is negative.
pub open spec fn decimal_int(i: int) -> Seq<char> {
    if i < 0 {
        seq!['-'] + decimal((-i) as nat)
    } else {
        decimal(i as nat)
    }
}

/// The lower-case hexadecimal digit of a number below sixteen.
pub open spec fn hex_digit(d: nat) -> char {
    if d < 10 {
        (48 + d) as char
    } else {
        (87 + d) as char
    }
}

pub open spec fn is_digit(c: char) -> bool {
    '0' <= c <= '9'
}

/// The number that a text of decimal digits denotes.
pub open spec fn digits_value(s: Seq<char>) -> nat
    decreases s.len(),
{
    if s.len() == 0 {
        0
    } else {
        digits_value(s.drop_last()) * 10 + (s.last() as nat - 48) as nat
    }
}

pub open spec fn all_digits(s: Seq<char>) -> bool {
    s.len() > 0 && forall|i: int| 0 <= i < s.len() ==> is_digit(#[trigger] s[i])
}

/// Reads a natural number: one or more decimal digits and nothing else.
pub open spec fn parse_decimal(s: Seq<char>) -> Option<nat> {
    if all_digits(s) {
        Some(digits_value(s))
    } else {
        None
    }
}

/// Reading the decimal form of a number gives the number back.
pub proof fn lemma_decimal_parse(n: nat)
    ensures
        parse_decimal(decimal(n)) == Some(n),
    decreases n,
{
    if n < 10 {
        assert(seq![digit(n)].drop_last() =~= Seq::<char>::empty());
        assert(digits_value(Seq::<char>::empty()) == 0);
    } else {
        lemma_decimal_parse(n / 10);
        let d = decimal(n / 10);
        assert(d.push(digit(n % 10)).drop_last() =~= d);
        assert forall|i: int| 0 <= i < d.push(digit(n % 10)).len() implies is_digit(
            #[trigger] d.push(digit(n % 10))[i],
        ) by {
            if i < d.len() {
                assert(is_digit(d[i]));
            }
        }
    }
}

/// The decimal form of a natural number.
pub fn decimal_text(n: u64) -> (res: String)
    ensures
        res@ == decimal(n as nat),
    decreases n,
{
    if n < 10 {
        let mut s = String::new();
        s.push((48u8 + n as u8) as char);
        assert(s@ =~= seq![digit(n as nat)]);
        s
    } else {
        let mut s = decimal_text(n / 10);
        s.push((48u8 + (n % 10) as u8) as char);
        s
    }
}

/// The decimal form of an integer.
pub fn decimal_int_text(i: i64) -> (res: String)
    ensures
        res@ == decimal_int(i as int),
{
    if i < 0 {
        let mut s = String::new();
        s.push('-');
        let m: u64 = if i == i64::MIN { 0x8000_0000_0000_0000u64 } else { (-i) as u64 };
        let d = decimal_text(m);
        assert(s@ =~= seq!['-']);
        s.append(d.as_str());
        s
    } else {
        decimal_text(i as u64)
    }
}

/// The last `w` hexadecimal digits of a number.
pub open spec fn hex_padded(n: nat, w: nat) -> Seq<char>
    decreases w,
{
    if w == 0 {
        Seq::empty()
    } else {
        hex_padded(n / 16, (w - 1) as nat).push(hex_digit(n % 16))
    }
}

pub proof fn lemma_hex_padded_len(n: nat, w: nat)
    ensures
        hex_padded(n, w).len() == w,
        forall|i: int| 0 <= i < w ==> is_hex(#[trigger] hex_padded(n, w)[i]),
    decreases w,
{
    if w > 0 {
        lemma_hex_padded_len(n / 16, (w - 1) as nat);
        let front = hex_padded(n / 16, (w - 1) as nat);
        assert forall|i: int| 0 <= i < w implies is_hex(#[trigger] hex_padded(n, w)[i]) by {
            if i < w - 1 {
                assert(hex_padded(n, w)[i] == front[i]);
            }
        }
    }
}

/// A hexadecimal digit of either case.
pub open spec fn is_hex(c: char) -> bool {
    '0' <= c <= '9' || 'a' <= c <= 'f' || 'A' <= c <= 'F'
}

pub open spec fn hex_value(c: char) -> nat {
    if '0' <= c <= '9' {
        (c as nat - 48) as nat
    } else if 'a' <= c <= 'f' {
        (c as nat - 87) as nat
    } else {
        (c as nat - 55) as nat
    }
}

/// The number that a text of hexadecimal digits denotes.
pub open spec fn hex_number(s: Seq<char>) -> nat
    decreases s.len(),
{
    if s.len() == 0 {
        0
    } else {
        hex_number(s.drop_last()) * 16 + hex_value(s.last())
    }
}

/// The power of sixteen.
pub open spec fn pow16(w: nat) -> nat
    decreases w,
{
    if w == 0 {
        1
    } else {
        16 * pow16((w - 1) as nat)
    }
}

/// Reading the padded hexadecimal form of a number gives the number back.
pub proof fn lemma_hex_roundtrip(n: nat, w: nat)
    requires
        n < pow16(w),
    ensures
        hex_number(hex_padded(n, w)) == n,
    decreases w,
{
    if w > 0 {
        assert(n / 16 < pow16((w - 1) as nat));
        lemma_hex_roundtrip(n / 16, (w - 1) as nat);
        let front = hex_padded(n / 16, (w - 1) as nat);
        assert(front.push(hex_digit(n % 16)).drop_last() =~= front);
        assert(hex_value(hex_digit(n % 16)) == n % 16);
    }
}

/// Appends the last `w` hexadecimal digits of a number.
pub fn push_hex(out: &mut String, n: u64, w: usize)
    ensures
        final(out)@ == old(out)@ + hex_padded(n as nat, w as nat),
    decreases w,
{
    let ghost start = out@;
    if w > 0 {
        push_hex(out, n / 16, w - 1);
        let d: u8 = (n % 16) as u8;
        let c: char = if d < 10 {
            (48u8 + d) as char
        } else {
            (87u8 + d) as char
        };
        out.push(c);
        assert(out@ =~= start + hex_padded(n as nat, w as nat));
    } else {
        assert(out@ =~= start + hex_padded(n as nat, 0));
    }
}

/// The hexadecimal number that stands in `v[from..to]`, of at most eight
/// digits; `None` where a character is no digit.
pub fn read_hex(v: &Vec<char>, from: usize, to: usize) -> (res: Option<u32>)
    requires
        from <= to <= v@.len(),
        to - from <= 8,
    ensures
        match res {
            Some(n) => (forall|i: int| from <= i < to ==> is_hex(#[trigger] v@[i])) && n
                == hex_number(v@.subrange(from as int, to as int)),
            None => exists|i: int| from <= i < to && !is_hex(#[trigger] v@[i]),
        },
{
    let mut n: u64 = 0;
    let mut i: usize = from;
    let mut bound: u64 = 1;
    assert(v@.subrange(from as int, from as int) =~= Seq::empty());
    while i < to
        invariant
            from <= i <= to <= v@.len(),
            to - from <= 8,
            bound == pow16((i - from) as nat),
            bound <= 0x1_0000_0000,
            i < to ==> bound <= 0x1000_0000,
            n == hex_number(v@.subrange(from as int, i as int)),
            n < bound,
            forall|j: int| from <= j < i ==> is_hex(#[trigger] v@[j]),
        decreases to - i,
    {
        let c = v[i];
        let d: u64 = if '0' <= c && c <= '9' {
            c as u64 - 48
        } else if 'a' <= c && c <= 'f' {
            c as u64 - 87
        } else if 'A' <= c && c <= 'F' {
            c as u64 - 55
        } else {
            assert(!is_hex(v@[i as int]));
            return None;
        };
        proof {
            let sub = v@.subrange(from as int, i + 1);
            assert(sub.drop_last() =~= v@.subrange(from as int, i as int));
            assert(sub.last() == c);
            assert(pow16((i + 1 - from) as nat) == 16 * pow16((i - from) as nat));
            lemma_pow16_bound((i + 1 - from) as nat);
        }
        n = n * 16 + d;
        bound = bound * 16;
        i += 1;
    }
    Some(n as u32)
}

proof fn lemma_pow16_bound(w: nat)
    requires
        w <= 8,
    ensures
        pow16(w) <= 0x1_0000_0000,
        w < 8 ==> pow16(w) <= 0x1000_0000,
{
    reveal_with_fuel(pow16, 9);
}

pub open spec fn separates() -> spec_fn(char) -> bool {
    |c: char| whitespace(c)
}

pub open spec fn not_empty() -> spec_fn(Seq<char>) -> bool {
    |t: Seq<char>| t.len() > 0
}

/// The words of a text: what stands between white space.
pub open spec fn words(s: Seq<char>) -> Seq<Seq<char>> {
    split(s, separates()).filter(not_empty())
}

/// The words of a text.
pub fn words_of(s: &str) -> (res: Vec<String>)
    ensures
        views(res@) == words(s@),
{
    let v = chars_of(s);
    let mut out: Vec<String> = Vec::new();
    let mut cur = String::new();
    let mut i: usize = 0;
    let ghost sep = separates();
    let ghost keep = not_empty();
    proof {
        reveal(Seq::filter);
        assert(split(v@.take(0), sep).drop_last().filter(keep) =~= views(out@));
        assert(split(v@.take(0), sep).last() =~= cur@);
    }
    while i < v.len()
        invariant
            i <= v@.len(),
            sep == separates(),
            keep == not_empty(),
            views(out@) == split(v@.take(i as int), sep).drop_last().filter(keep),
            cur@ == split(v@.take(i as int), sep).last(),
        decreases v@.len() - i,
    {
        let x = v[i];
        let ghost before = split(v@.take(i as int), sep);
        let ghost after = split(v@.take(i + 1), sep);
        proof {
            assert(v@.take(i + 1).drop_last() == v@.take(i as int));
            assert(v@.take(i + 1).last() == x);
            lemma_split_nonempty(v@.take(i as int), sep);
        }
        if x.is_whitespace() {
            let ghost o = out@;
            proof {
                assert(after.drop_last() =~= before);
                reveal(Seq::filter);
            }
            if !cur.as_str().is_empty() {
                out.push(cur);
                assert(views(out@) =~= views(o).push(cur@));
            }
            cur = String::new();
        } else {
            cur.push(x);
            assert(after.drop_last() =~= before.drop_last());
        }
        i += 1;
    }
    let ghost o = out@;
    proof {
        assert(v@.take(v@.len() as int) == v@);
        lemma_split_nonempty(v@, sep);
        reveal(Seq::filter);
    }
    if !cur.as_str().is_empty() {
        out.push(cur);
        assert(views(out@) =~= views(o).push(cur@));
    }
    out
}

/// Reads decimal digits from `v[from..]`: the number, where there is a digit,
/// nothing else, and the number is at most `max`.
pub fn read_decimal(v: &Vec<char>, from: usize, max: u64) -> (res: Option<u64>)
    requires
        from <= v@.len(),
    ensures
        match res {
            Some(n) => n <= max && parse_decimal(v@.skip(from as int)) == Some(n as nat),
            None => match parse_decimal(v@.skip(from as int)) {
                Some(n) => n > max,
                None => true,
            },
        },
{
    let ghost s = v@.skip(from as int);
    if from == v.len() {
        return None;
    }
    let mut n: u64 = 0;
    let mut over = false;
    let mut i: usize = from;
    assert(s.take(0) =~= Seq::empty());
    while i < v.len()
        invariant
            from <= i <= v@.len(),
            s == v@.skip(from as int),
            forall|j: int| 0 <= j < i - from ==> is_digit(#[trigger] s[j]),
            !over ==> n == digits_value(s.take(i - from)) && n <= max,
            over ==> digits_value(s.take(i - from)) > max,
        decreases v@.len() - i,
    {
        let c = v[i];
        assert(s[i - from] == c);
        if !('0' <= c && c <= '9') {
            assert(!is_digit(s[i - from]));
            return None;
        }
        let d: u64 = c as u64 - 48;
        proof {
            assert(s.take(i + 1 - from).drop_last() =~= s.take(i - from));
            assert(s.take(i + 1 - from).last() == c);
        }
        if !over {
            let m: u128 = n as u128 * 10 + d as u128;
            if m > max as u128 {
                over = true;
            } else {
                n = m as u64;
            }
        }
        i += 1;
    }
    assert(s.take(s.len() as int) =~= s);
    assert(all_digits(s));
    if over {
        None
    } else {
        Some(n)
    }
}

/// The integer that a decimal text denotes, with a minus sign or none.
pub open spec fn parse_int(s: Seq<char>) -> Option<int> {
    if s.len() > 0 && s[0] == '-' {
        match parse_decimal(s.skip(1)) {
            Some(n) => Some(-(n as int)),
            None => None,
        }
    } else {
        match parse_decimal(s) {
            Some(n) => Some(n as int),
            None => None,
        }
    }
}

/// Reading the decimal form of an integer gives the integer back.
pub proof fn lemma_parse_int(i: int)
    ensures
        parse_int(decimal_int(i)) == Some(i),
{
    if i < 0 {
        lemma_decimal_parse((-i) as nat);
        assert((seq!['-'] + decimal((-i) as nat)).skip(1) =~= decimal((-i) as nat));
    } else {
        lemma_decimal_parse(i as nat);
        let d = decimal(i as nat);
        assert(d.skip(0) =~= d);
        assert(is_digit(d[0]));
    }
}

/// Reads a 64-bit integer: the integer, where the text denotes one that fits.
pub fn read_int(s: &str) -> (res: Option<i64>)
    ensures
        match res {
            Some(i) => parse_int(s@) == Some(i as int),
            None => match parse_int(s@) {
                Some(i) => i < i64::MIN || i > i64::MAX,
                None => true,
            },
        },
{
    let v = chars_of(s);
    if v.len() > 0 && v[0] == '-' {
        match read_decimal(&v, 1, 0x8000_0000_0000_0000) {
            Some(n) => if n == 0x8000_0000_0000_0000 {
                Some(i64::MIN)
            } else {
                Some(-(n as i64))
            },
            None => None,
        }
    } else {
        assert(v@.skip(0) =~= v@);
        match read_decimal(&v, 0, i64::MAX as u64) {
            Some(n) => Some(n as i64),
            None => None,
        }
    }
}

/// The number that a text of decimal digits denotes, with a plus sign or none.
pub open spec fn parse_unsigned(s: Seq<char>) -> Option<nat> {
    if s.len() > 0 && s[0] == '+' {
        parse_decimal(s.skip(1))
    } else {
        parse_decimal(s)
    }
}

/// The integer that a decimal text denotes, with a sign or none.
pub open spec fn parse_signed(s: Seq<char>) -> Option<int> {
    if s.len() > 0 && s[0] == '-' {
        parse_int(s)
    } else {
        match parse_unsigned(s) {
            Some(n) => Some(n as int),
            None => None,
        }
    }
}

/// Reads a number of at most `max`: the number, where the text denotes one.
pub fn read_unsigned(s: &str, max: u64) -> (res: Option<u64>)
    ensures
        match res {
            Some(n) => n <= max && parse_unsigned(s@) == Some(n as nat),
            None => match parse_unsigned(s@) {
                Some(n) => n > max,
                None => true,
            },
        },
{
    let v = chars_of(s);
    if v.len() > 0 && v[0] == '+' {
        read_decimal(&v, 1, max)
    } else {
        assert(v@.skip(0) =~= v@);
        read_decimal(&v, 0, max)
    }
}

/// Reads a 64-bit integer that may have a plus sign.
pub fn read_signed(s: &str) -> (res: Option<i64>)
    ensures
        match res {
            Some(i) => parse_signed(s@) == Some(i as int),
            None => match parse_signed(s@) {
                Some(i) => i < i64::MIN || i > i64::MAX,
                None => true,
            },
        },
{
    let v = chars_of(s);
    if v.len() > 0 && v[0] == '-' {
        read_int(s)
    } else {
        match read_unsigned(s, i64::MAX as u64) {
            Some(n) => Some(n as i64),
            None => None,
        }
    }
}

/// A text without the white space that it begins and ends with.
pub open spec fn trimmed(s: Seq<char>) -> Seq<char>
    decreases s.len(),
{
    if s.len() > 0 && whitespace(s[0]) {
        trimmed(s.drop_first())
    } else if s.len() > 0 && whitespace(s.last()) {
        trimmed(s.drop_last())
    } else {
        s
    }
}

/// A text without the white space around it.
pub fn trim_text(s: &str) -> (res: String)
    ensures
        res@ == trimmed(s@),
{
    let v = chars_of(s);
    let n: usize = v.len();
    let mut from: usize = 0;
    let mut to: usize = n;
    assert(v@.subrange(0, n as int) =~= s@);
    while from < to && v[from].is_whitespace()
        invariant
            from <= to <= n,
            n == v@.len(),
            trimmed(v@.subrange(from as int, to as int)) == trimmed(s@),
        decreases to - from,
    {
        assert(v@.subrange(from as int, to as int).drop_first() =~= v@.subrange(
            from + 1,
            to as int,
        ));
        from += 1;
    }
    while from < to && v[to - 1].is_whitespace()
        invariant
            from <= to <= n,
            n == v@.len(),
            from < to ==> !whitespace(v@[from as int]),
            trimmed(v@.subrange(from as int, to as int)) == trimmed(s@),
        decreases to,
    {
        let ghost a = v@.subrange(from as int, to as int);
        assert(a[0] == v@[from as int]);
        assert(a.last() == v@[to - 1]);
        assert(a.drop_last() =~= v@.subrange(from as int, to - 1));
        to -= 1;
    }
    proof {
        let a = v@.subrange(from as int, to as int);
        if from < to {
            assert(a[0] == v@[from as int]);
            assert(a.last() == v@[to - 1]);
        }
        assert(trimmed(a) == a);
    }
    text_of(&v, from, to)
}

/// Two texts, one after another.
pub fn cat2(a: &str, b: &str) -> (res: String)
    ensures
        res@ == a@ + b@,
{
    let mut s = String::new();
    s.append(a);
    s.append(b);
    assert(s@ =~= a@ + b@);
    s
}

/// Three texts, one after another.
pub fn cat3(a: &str, b: &str, c: &str) -> (res: String)
    ensures
        res@ == a@ + b@ + c@,
{
    let mut s = String::new();
    s.append(a);
    s.append(b);
    s.append(c);
    assert(s@ =~= a@ + b@ + c@);
    s
}

/// Five texts, one after another.
pub fn cat5(a: &str, b: &str, c: &str, d: &str, e: &str) -> (res: String)
    ensures
        res@ == a@ + b@ + c@ + d@ + e@,
{
    let mut s = String::new();
    s.append(a);
    s.append(b);
    s.append(c);
    s.append(d);
    s.append(e);
    assert(s@ =~= a@ + b@ + c@ + d@ + e@);
    s
}

/// Lexicographic order of byte sequences.
pub open spec fn bytes_lt(a: Seq<u8>, b: Seq<u8>) -> bool
    decreases a.len(),
{
    if b.len() == 0 {
        false
    } else if a.len() == 0 {
        true
    } else if a[0] == b[0] {
        bytes_lt(a.drop_first(), b.drop_first())
    } else {
        a[0] < b[0]
    }
}

/// The order of texts: lexicographic, by UTF-8 bytes.
pub open spec fn text_lt(a: Seq<char>, b: Seq<char>) -> bool {
    bytes_lt(utf8::encode_utf8(a), utf8::encode_utf8(b))
}

pub proof fn lemma_bytes_lt_trans(a: Seq<u8>, b: Seq<u8>, c: Seq<u8>)
    requires
        bytes_lt(a, b),
        bytes_lt(b, c),
    ensures
        bytes_lt(a, c),
    decreases a.len(),
{
    if a.len() > 0 && a[0] == b[0] && b[0] == c[0] {
        lemma_bytes_lt_trans(a.drop_first(), b.drop_first(), c.drop_first());
    }
}

pub proof fn lemma_bytes_lt_total(a: Seq<u8>, b: Seq<u8>)
    ensures
        !(bytes_lt(a, b) && bytes_lt(b, a)),
        !bytes_lt(a, b) && !bytes_lt(b, a) ==> a == b,
        !bytes_lt(a, a),
    decreases a.len(),
{
    if a.len() > 0 {
        lemma_bytes_lt_total(a.drop_first(), a.drop_first());
        if b.len() > 0 && a[0] == b[0] {
            lemma_bytes_lt_total(a.drop_first(), b.drop_first());
            if !bytes_lt(a, b) && !bytes_lt(b, a) {
                assert(a =~= seq![a[0]] + a.drop_first());
                assert(b =~= seq![b[0]] + b.drop_first());
            }
        }
    } else if b.len() == 0 {
        assert(a =~= b);
    }
}

pub proof fn lemma_encode_injective(a: Seq<char>, b: Seq<char>)
    requires
        utf8::encode_utf8(a) == utf8::encode_utf8(b),
    ensures
        a == b,
{
    utf8::encode_utf8_decode_utf8(a);
    utf8::encode_utf8_decode_utf8(b);
}

pub proof fn lemma_text_lt_trans(a: Seq<char>, b: Seq<char>, c: Seq<char>)
    requires
        text_lt(a, b),
        text_lt(b, c),
    ensures
        text_lt(a, c),
{
    lemma_bytes_lt_trans(utf8::encode_utf8(a), utf8::encode_utf8(b), utf8::encode_utf8(c));
}

/// Of two different texts exactly one is less than the other.
pub proof fn lemma_text_lt_total(a: Seq<char>, b: Seq<char>)
    ensures
        !(text_lt(a, b) && text_lt(b, a)),
        !text_lt(a, b) && !text_lt(b, a) ==> a == b,
        !text_lt(a, a),
{
    lemma_bytes_lt_total(utf8::encode_utf8(a), utf8::encode_utf8(b));
    lemma_bytes_lt_total(utf8::encode_utf8(a), utf8::encode_utf8(a));
    if utf8::encode_utf8(a) == utf8::encode_utf8(b) {
        lemma_encode_injective(a, b);
    }
}

/// Whether `a` comes before `b` in the order of texts.
pub fn text_less(a: &str, b: &str) -> (res: bool)
    ensures
        res == text_lt(a@, b@),
{
    let x = a.as_bytes();
    let y = b.as_bytes();
    let mut i: usize = 0;
    assert(x@.skip(0) =~= x@);
    assert(y@.skip(0) =~= y@);
    while i < x.len() && i < y.len()
        invariant
            i <= x@.len(),
            i <= y@.len(),
            x@ == utf8::encode_utf8(a@),
            y@ == utf8::encode_utf8(b@),
            bytes_lt(x@, y@) == bytes_lt(x@.skip(i as int), y@.skip(i as int)),
        decreases x@.len() - i,
    {
        assert(x@.skip(i as int).drop_first() =~= x@.skip(i + 1));
        assert(y@.skip(i as int).drop_first() =~= y@.skip(i + 1));
        if x[i] != y[i] {
            return x[i] < y[i];
        }
        i += 1;
    }
    i < y.len()
}

} // verus!
