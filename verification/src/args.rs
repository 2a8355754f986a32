//! Command-line arguments: `--key value` (repeatable), `--key=value` and
//! `--flag`. A single dash makes no flag, so negative numbers are values.

use crate::text;
use crate::text::{chars_of, read_signed, read_unsigned, same_text, text_of};
use vstd::prelude::*;

verus! {

/// The mathematical form of [`Args`]: values in the order in which they were
/// given.
pub struct ArgsV {
    pub positionals: Seq<Seq<char>>,
    pub flags: Seq<(Seq<char>, Seq<char>)>,
    pub bools: Seq<Seq<char>>,
}

impl ArgsV {
    pub open spec fn empty() -> ArgsV {
        ArgsV { positionals: Seq::empty(), flags: Seq::empty(), bools: Seq::empty() }
    }

    pub open spec fn with_positional(self, t: Seq<char>) -> ArgsV {
        ArgsV { positionals: self.positionals.push(t), ..self }
    }

    pub open spec fn with_flag(self, k: Seq<char>, v: Seq<char>) -> ArgsV {
        ArgsV { flags: self.flags.push((k, v)), ..self }
    }

    pub open spec fn with_bool(self, k: Seq<char>) -> ArgsV {
        ArgsV { bools: self.bools.push(k), ..self }
    }

    /// The last value of a key.
    pub open spec fn get(self, k: Seq<char>) -> Option<Seq<char>> {
        last_value(self.flags, k)
    }

    /// All values of a key.
    pub open spec fn get_all(self, k: Seq<char>) -> Seq<Seq<char>> {
        values(self.flags, k)
    }

    /// Whether a key was given, with a value or without.
    pub open spec fn has(self, k: Seq<char>) -> bool {
        self.bools.contains(k) || self.get(k) is Some
    }

    pub open spec fn get_or(self, k: Seq<char>, default: Seq<char>) -> Seq<char> {
        match self.get(k) {
            Some(v) => v,
            None => default,
        }
    }

    /// The value of a key as a number of at most `max`.
    pub open spec fn number(self, k: Seq<char>, max: nat) -> Option<nat> {
        match self.get(k) {
            Some(v) => match text::parse_unsigned(v) {
                Some(n) => if n <= max {
                    Some(n)
                } else {
                    None
                },
                None => None,
            },
            None => None,
        }
    }

    /// The value of a key as an integer of 64 bits.
    pub open spec fn integer(self, k: Seq<char>) -> Option<int> {
        match self.get(k) {
            Some(v) => match text::parse_signed(v) {
                Some(i) => if i64::MIN <= i <= i64::MAX {
                    Some(i)
                } else {
                    None
                },
                None => None,
            },
            None => None,
        }
    }
}

pub open spec fn last_value(flags: Seq<(Seq<char>, Seq<char>)>, k: Seq<char>) -> Option<Seq<char>>
    decreases flags.len(),
{
    if flags.len() == 0 {
        None
    } else if flags.last().0 == k {
        Some(flags.last().1)
    } else {
        last_value(flags.drop_last(), k)
    }
}

pub open spec fn values(flags: Seq<(Seq<char>, Seq<char>)>, k: Seq<char>) -> Seq<Seq<char>>
    decreases flags.len(),
{
    if flags.len() == 0 {
        Seq::empty()
    } else {
        let before = values(flags.drop_last(), k);
        if flags.last().0 == k {
            before.push(flags.last().1)
        } else {
            before
        }
    }
}

/// The first position from `i` on at which `c` stands; the length where it
/// stands nowhere.
pub open spec fn index_from(s: Seq<char>, c: char, i: int) -> int
    decreases s.len() - i,
{
    if i >= s.len() {
        s.len() as int
    } else if s[i] == c {
        i
    } else {
        index_from(s, c, i + 1)
    }
}

/// A text split at the first occurrence of `c`.
pub open spec fn split_once(s: Seq<char>, c: char) -> Option<(Seq<char>, Seq<char>)> {
    let i = index_from(s, c, 0);
    if i < s.len() {
        Some((s.take(i), s.skip(i + 1)))
    } else {
        None
    }
}

/// Splits a text at the first occurrence of `c`.
pub fn split_at_first(s: &str, c: char) -> (res: Option<(String, String)>)
    ensures
        match res {
            Some((a, b)) => split_once(s@, c) == Some((a@, b@)),
            None => split_once(s@, c) is None,
        },
{
    let v = chars_of(s);
    let n: usize = v.len();
    let mut i: usize = 0;
    while i < n && v[i] != c
        invariant
            i <= n,
            n == v@.len(),
            v@ == s@,
            index_from(s@, c, i as int) == index_from(s@, c, 0),
        decreases n - i,
    {
        i += 1;
    }
    if i < n {
        assert(v@.subrange(0, i as int) =~= s@.take(i as int));
        assert(v@.subrange(i + 1, n as int) =~= s@.skip(i + 1));
        Some((text_of(&v, 0, i), text_of(&v, i + 1, n)))
    } else {
        None
    }
}

pub open spec fn is_flag(t: Seq<char>) -> bool {
    "--"@.is_prefix_of(t)
}

/// Reads the tokens from `i` on. A flag without `=` takes the next token as
/// its value, unless that is a flag too.
pub open spec fn parse_from(toks: Seq<Seq<char>>, i: int, a: ArgsV) -> ArgsV
    decreases toks.len() - i,
{
    if i >= toks.len() {
        a
    } else if is_flag(toks[i]) {
        let key = toks[i].skip(2);
        match split_once(key, '=') {
            Some((k, v)) => parse_from(toks, i + 1, a.with_flag(k, v)),
            None => if i + 1 < toks.len() && !is_flag(toks[i + 1]) {
                parse_from(toks, i + 2, a.with_flag(key, toks[i + 1]))
            } else {
                parse_from(toks, i + 1, a.with_bool(key))
            },
        }
    } else {
        parse_from(toks, i + 1, a.with_positional(toks[i]))
    }
}

/// Parsed arguments.
pub struct Args {
    pub positionals: Vec<String>,
    flags: Vec<(String, String)>,
    bools: Vec<String>,
}

impl View for Args {
    type V = ArgsV;

    closed spec fn view(&self) -> ArgsV {
        ArgsV {
            positionals: text::views(self.positionals@),
            flags: crate::query::pair_views(self.flags@),
            bools: text::views(self.bools@),
        }
    }
}

impl Args {
    pub fn parse(argv: Vec<String>) -> (res: Self)
        ensures
            res@ == parse_from(text::views(argv@), 0, ArgsV::empty()),
    {
        let mut a = Args { positionals: Vec::new(), flags: Vec::new(), bools: Vec::new() };
        let ghost toks = text::views(argv@);
        proof {
            assert(a@.positionals =~= Seq::empty());
            assert(a@.flags =~= Seq::empty());
            assert(a@.bools =~= Seq::empty());
            reveal_strlit("--");
        }
        let n: usize = argv.len();
        let mut i: usize = 0;
        while i < n
            invariant
                i <= n,
                n == argv@.len(),
                toks == text::views(argv@),
                "--"@.len() == 2,
                parse_from(toks, i as int, a@) == parse_from(toks, 0, ArgsV::empty()),
            decreases n - i,
        {
            let t = argv[i].as_str();
            assert(toks[i as int] == t@);
            let ghost before = a@;
            match text::after_prefix(t, "--") {
                Some(key) => {
                    match split_at_first(key.as_str(), '=') {
                        Some((k, v)) => {
                            a.put_flag(k, v);
                        },
                        None => {
                            if i + 1 < n && !text::has_prefix(argv[i + 1].as_str(), "--") {
                                assert(toks[i + 1] == argv@[i + 1]@);
                                a.put_flag(key, argv[i + 1].clone());
                                i += 1;
                            } else {
                                if i + 1 < n {
                                    assert(toks[i + 1] == argv@[i + 1]@);
                                }
                                a.put_bool(key);
                            }
                        },
                    }
                },
                None => {
                    a.put_positional(argv[i].clone());
                },
            }
            i += 1;
        }
        a
    }

    fn put_flag(&mut self, k: String, v: String)
        ensures
            final(self)@ == old(self)@.with_flag(k@, v@),
    {
        let ghost before = self.flags@;
        self.flags.push((k, v));
        assert(crate::query::pair_views(self.flags@) =~= crate::query::pair_views(before).push(
            (k@, v@),
        ));
    }

    fn put_bool(&mut self, k: String)
        ensures
            final(self)@ == old(self)@.with_bool(k@),
    {
        proof {
            crate::query::lemma_views_push(self.bools@, k);
        }
        self.bools.push(k);
    }

    fn put_positional(&mut self, t: String)
        ensures
            final(self)@ == old(self)@.with_positional(t@),
    {
        proof {
            crate::query::lemma_views_push(self.positionals@, t);
        }
        self.positionals.push(t);
    }

    /// The same arguments with a value that comes after all others.
    pub fn with_override(self, key: &str, value: &str) -> (res: Self)
        ensures
            res@ == self@.with_flag(key@, value@),
    {
        let mut a = self;
        a.put_flag(key.to_owned(), value.to_owned());
        a
    }

    /// The positional argument at `i`.
    pub fn positional(&self, i: usize) -> (res: Option<&str>)
        ensures
            match res {
                Some(s) => i < self@.positionals.len() && self@.positionals[i as int] == s@,
                None => i >= self@.positionals.len(),
            },
    {
        if i < self.positionals.len() {
            assert(self@.positionals[i as int] == self.positionals@[i as int]@);
            Some(self.positionals[i].as_str())
        } else {
            None
        }
    }

    /// The first positional argument.
    pub fn subcommand(&self) -> (res: Option<&str>)
        ensures
            match res {
                Some(s) => self@.positionals.len() > 0 && self@.positionals[0] == s@,
                None => self@.positionals.len() == 0,
            },
    {
        self.positional(0)
    }

    /// The last value of a key.
    pub fn get(&self, key: &str) -> (res: Option<&str>)
        ensures
            crate::graph::str_view(res) == self@.get(key@),
    {
        let ghost fs = self@.flags;
        let mut i: usize = self.flags.len();
        assert(fs.take(i as int) =~= fs);
        while i > 0
            invariant
                i <= self.flags@.len(),
                fs == crate::query::pair_views(self.flags@),
                last_value(fs, key@) == last_value(fs.take(i as int), key@),
            decreases i,
        {
            assert(fs[i - 1] == (self.flags@[i - 1].0@, self.flags@[i - 1].1@));
            assert(fs.take(i as int).drop_last() =~= fs.take(i - 1));
            assert(fs.take(i as int).last() == fs[i - 1]);
            if same_text(self.flags[i - 1].0.as_str(), key) {
                return Some(self.flags[i - 1].1.as_str());
            }
            i -= 1;
        }
        None
    }

    /// All values of a key, in the order in which they were given.
    pub fn get_all(&self, key: &str) -> (res: Vec<String>)
        ensures
            text::views(res@) == self@.get_all(key@),
    {
        let ghost fs = self@.flags;
        let mut out: Vec<String> = Vec::new();
        let mut i: usize = 0;
        assert(text::views(out@) =~= values(fs.take(0), key@));
        while i < self.flags.len()
            invariant
                i <= self.flags@.len(),
                fs == crate::query::pair_views(self.flags@),
                text::views(out@) == values(fs.take(i as int), key@),
            decreases self.flags@.len() - i,
        {
            assert(fs[i as int] == (self.flags@[i as int].0@, self.flags@[i as int].1@));
            assert(fs.take(i + 1).drop_last() =~= fs.take(i as int));
            assert(fs.take(i + 1).last() == fs[i as int]);
            if same_text(self.flags[i].0.as_str(), key) {
                proof {
                    crate::query::lemma_views_push(out@, self.flags@[i as int].1);
                }
                out.push(self.flags[i].1.clone());
            }
            i += 1;
        }
        assert(fs.take(fs.len() as int) =~= fs);
        out
    }

    /// Whether a key was given, with a value or without.
    pub fn has(&self, key: &str) -> (res: bool)
        ensures
            res == self@.has(key@),
    {
        let ghost bs = self@.bools;
        let mut i: usize = 0;
        while i < self.bools.len()
            invariant
                i <= self.bools@.len(),
                bs == text::views(self.bools@),
                forall|j: int| 0 <= j < i ==> bs[j] != key@,
            decreases self.bools@.len() - i,
        {
            assert(bs[i as int] == self.bools@[i as int]@);
            if same_text(self.bools[i].as_str(), key) {
                return true;
            }
            i += 1;
        }
        assert(!bs.contains(key@));
        self.get(key).is_some()
    }

    pub fn get_or<'a>(&'a self, key: &str, default: &'a str) -> (res: &'a str)
        ensures
            res@ == self@.get_or(key@, default@),
    {
        match self.get(key) {
            Some(v) => v,
            None => default,
        }
    }

    pub fn get_i64(&self, key: &str) -> (res: Option<i64>)
        ensures
            match res {
                Some(i) => self@.integer(key@) == Some(i as int),
                None => self@.integer(key@) is None,
            },
    {
        match self.get(key) {
            Some(v) => read_signed(v),
            None => None,
        }
    }

    pub fn get_u32(&self, key: &str) -> (res: Option<u32>)
        ensures
            match res {
                Some(n) => self@.number(key@, u32::MAX as nat) == Some(n as nat),
                None => self@.number(key@, u32::MAX as nat) is None,
            },
    {
        match self.get(key) {
            Some(v) => match read_unsigned(v, u32::MAX as u64) {
                Some(n) => Some(n as u32),
                None => None,
            },
            None => None,
        }
    }

    pub fn get_usize(&self, key: &str) -> (res: Option<usize>)
        ensures
            match res {
                Some(n) => self@.number(key@, usize::MAX as nat) == Some(n as nat),
                None => self@.number(key@, usize::MAX as nat) is None,
            },
    {
        match self.get(key) {
            Some(v) => match read_unsigned(v, usize::MAX as u64) {
                Some(n) => Some(n as usize),
                None => None,
            },
            None => None,
        }
    }
}

/// A value that overrides is what the key gives afterwards; other keys give
/// what they gave before.
pub proof fn override_wins(a: ArgsV, key: Seq<char>, value: Seq<char>, other: Seq<char>)
    ensures
        a.with_flag(key, value).get(key) == Some(value),
        other != key ==> a.with_flag(key, value).get(other) == a.get(other),
{
    let b = a.with_flag(key, value);
    assert(b.flags.drop_last() =~= a.flags);
}

} // verus!
