//! Numbering of open-ended strings: node types, edge kinds, provenance labels.

use crate::text;
use vstd::hash_map::StringHashMap;
use vstd::prelude::*;

verus! {

/// The strings numbered so far, with `s` numbered too.
pub open spec fn interned(table: Seq<Seq<char>>, s: Seq<char>) -> Seq<Seq<char>> {
    if table.contains(s) {
        table
    } else {
        table.push(s)
    }
}

/// The number of `s` in a table that holds it.
pub open spec fn number_of(table: Seq<Seq<char>>, s: Seq<char>) -> u32 {
    table.index_of(s) as u32
}

pub proof fn lemma_number_of(table: Seq<Seq<char>>, i: int)
    requires
        table.no_duplicates(),
        0 <= i < table.len(),
    ensures
        table.index_of(table[i]) == i,
{
    let j = table.index_of(table[i]);
    assert(table.contains(table[i]));
    assert(0 <= j < table.len() && table[j] == table[i]);
}

/// Numbers strings densely in the order of their first use. A new string
/// costs one entry, so the set of strings need not be known beforehand.
pub struct Interner {
    map: StringHashMap<u32>,
    vec: Vec<String>,
}

impl View for Interner {
    type V = Seq<Seq<char>>;

    closed spec fn view(&self) -> Seq<Seq<char>> {
        text::views(self.vec@)
    }
}

impl Interner {
    /// Each string has one number, and the number leads back to the string.
    pub closed spec fn wf(&self) -> bool {
        &&& self@.len() <= u32::MAX + 1
        &&& forall|i: int|
            0 <= i < self@.len() ==> self.map@.contains_key(#[trigger] self@[i])
                && self.map@[self@[i]] == i
        &&& forall|k: Seq<char>| #[trigger]
            self.map@.contains_key(k) ==> self.map@[k] < self@.len() && self@[self.map@[k] as int]
                == k
    }

    pub proof fn lemma_wf(&self)
        requires
            self.wf(),
        ensures
            self@.no_duplicates(),
            self@.len() <= u32::MAX + 1,
    {
        assert forall|i: int, j: int|
            0 <= i < self@.len() && 0 <= j < self@.len() && i != j implies self@[i] != self@[j] by {
            assert(self.map@[self@[i]] == i);
            assert(self.map@[self@[j]] == j);
        }
    }

    pub fn new() -> (res: Self)
        ensures
            res.wf(),
            res@ == Seq::<Seq<char>>::empty(),
    {
        let res = Interner { map: StringHashMap::new(), vec: Vec::new() };
        assert(res@ =~= Seq::<Seq<char>>::empty());
        res
    }

    pub fn len(&self) -> (res: usize)
        ensures
            res == self@.len(),
    {
        self.vec.len()
    }

    /// The number of `s`, which is given one where it has none yet.
    pub fn intern(&mut self, s: &str) -> (id: u32)
        requires
            old(self).wf(),
            old(self)@.len() <= u32::MAX,
        ensures
            final(self).wf(),
            final(self)@ == interned(old(self)@, s@),
            id == number_of(final(self)@, s@),
            id < final(self)@.len(),
            final(self)@[id as int] == s@,
    {
        proof {
            self.lemma_wf();
        }
        if let Some(id) = self.map.get(s) {
            proof {
                assert(self@[*id as int] == s@);
                lemma_number_of(self@, *id as int);
            }
            return *id;
        }
        let id: u32 = self.vec.len() as u32;
        let ghost before = self@;
        assert(!before.contains(s@)) by {
            if before.contains(s@) {
                let i = before.index_of(s@);
                assert(self.map@.contains_key(before[i]));
            }
        }
        self.vec.push(s.to_owned());
        self.map.insert(s.to_owned(), id);
        assert(self@ =~= before.push(s@));
        assert forall|i: int| 0 <= i < self@.len() implies self.map@.contains_key(
            #[trigger] self@[i],
        ) && self.map@[self@[i]] == i by {
            if i < before.len() {
                assert(self@[i] == before[i]);
                assert(before.contains(before[i]));
            }
        }
        proof {
            self.lemma_wf();
            lemma_number_of(self@, id as int);
        }
        id
    }

    /// The string that `id` stands for.
    pub fn resolve(&self, id: u32) -> (res: &str)
        requires
            id < self@.len(),
        ensures
            res@ == self@[id as int],
    {
        self.vec[id as usize].as_str()
    }

    /// The number of `s`, where it has one.
    pub fn get(&self, s: &str) -> (res: Option<u32>)
        requires
            self.wf(),
        ensures
            match res {
                Some(id) => self@.contains(s@) && id == number_of(self@, s@) && id < self@.len()
                    && self@[id as int] == s@,
                None => !self@.contains(s@),
            },
    {
        proof {
            self.lemma_wf();
        }
        match self.map.get(s) {
            Some(id) => {
                proof {
                    assert(self@[*id as int] == s@);
                    lemma_number_of(self@, *id as int);
                }
                Some(*id)
            },
            None => {
                proof {
                    if self@.contains(s@) {
                        let i = self@.index_of(s@);
                        assert(self.map@.contains_key(self@[i]));
                    }
                }
                None
            },
        }
    }
}

} // verus!
