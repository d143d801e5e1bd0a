//! A table of distinct texts, each found again in constant time.
use crate::text::texts;
use vstd::hash_map::StringHashMap;
use vstd::prelude::*;

verus! {

/// Distinct texts in the order in which they were first seen.
pub struct Interner {
    names: Vec<String>,
    index: StringHashMap<usize>,
}

impl View for Interner {
    type V = Seq<Seq<char>>;

    closed spec fn view(&self) -> Seq<Seq<char>> {
        texts(self.names@)
    }
}

impl Interner {
    /// The index leads from each name to its position and to nothing else.
    pub closed spec fn wf(&self) -> bool {
        &&& forall|i: int|
            0 <= i < self.names@.len() ==> {
                &&& self.index@.contains_key(#[trigger] self.names@[i]@)
                &&& self.index@[self.names@[i]@] == i
            }
        &&& forall|k: Seq<char>| #[trigger]
            self.index@.contains_key(k) ==> {
                &&& self.index@[k] < self.names@.len()
                &&& self.names@[self.index@[k] as int]@ == k
            }
    }

    /// An empty table.
    pub fn new() -> (r: Self)
        ensures
            r.wf(),
            r@ == Seq::<Seq<char>>::empty(),
    {
        Interner { names: Vec::new(), index: StringHashMap::new() }
    }

    /// How many texts there are.
    pub fn len(&self) -> (r: usize)
        ensures
            r == self@.len(),
    {
        self.names.len()
    }

    /// The text at a position.
    pub fn name(&self, i: usize) -> (r: &String)
        requires
            i < self@.len(),
        ensures
            r@ == self@[i as int],
    {
        &self.names[i]
    }

    /// No text stands twice.
    pub proof fn lemma_distinct(&self)
        requires
            self.wf(),
        ensures
            self@.no_duplicates(),
    {
        assert forall|i: int, j: int|
            0 <= i < self@.len() && 0 <= j < self@.len() && i != j implies self@[i] != self@[j] by {
            assert(self.index@[self.names@[i]@] == i);
            assert(self.index@[self.names@[j]@] == j);
        }
    }

    /// Where a text stands, if it is there.
    pub fn find(&self, s: &str) -> (r: Option<usize>)
        requires
            self.wf(),
        ensures
            match r {
                Some(i) => i < self@.len() && self@[i as int] == s@,
                None => !self@.contains(s@),
            },
    {
        match self.index.get(s) {
            Some(i) => Some(*i),
            None => {
                proof {
                    if self@.contains(s@) {
                        let i = choose|i: int| 0 <= i < self@.len() && self@[i] == s@;
                        assert(self.index@.contains_key(self.names@[i]@));
                    }
                }
                None
            },
        }
    }

    /// Where a text stands, after adding it at the end if it was not there.
    pub fn intern(&mut self, s: &str) -> (r: usize)
        requires
            old(self).wf(),
        ensures
            final(self).wf(),
            final(self)@ == (if old(self)@.contains(s@) {
                old(self)@
            } else {
                old(self)@.push(s@)
            }),
            r < final(self)@.len(),
            final(self)@[r as int] == s@,
    {
        match self.find(s) {
            Some(i) => {
                assert(self@.contains(s@));
                i
            },
            None => {
                let n: usize = self.names.len();
                let ghost was = *self;
                self.index.insert(s.to_owned(), n);
                self.names.push(s.to_owned());
                proof {
                    assert(self@ =~= was@.push(s@));
                    assert forall|i: int| 0 <= i < self.names@.len() implies {
                        &&& self.index@.contains_key(#[trigger] self.names@[i]@)
                        &&& self.index@[self.names@[i]@] == i
                    } by {
                        if i < n {
                            assert(was.names@[i]@ == self.names@[i]@);
                            assert(was@[i] == was.names@[i]@);
                            assert(was@.contains(was@[i]));
                        }
                    }
                    assert forall|k: Seq<char>| #[trigger] self.index@.contains_key(k) implies {
                        &&& self.index@[k] < self.names@.len()
                        &&& self.names@[self.index@[k] as int]@ == k
                    } by {
                        if k != s@ {
                            assert(was.index@.contains_key(k));
                        }
                    }
                }
                n
            },
        }
    }
}

} // verus!
