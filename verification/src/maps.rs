//! The update maps a form absorbs: names to typed values, and names to
//! raw strings. Entries keep their insertion order and keys are unique.

use vstd::prelude::*;

use crate::assoc::{assoc_map_of, distinct_keys, key_index, lemma_assoc_push, lemma_assoc_update,
    lemma_key_index, lemma_assoc_index, lemma_assoc_contains};
use crate::text;
use crate::value::{Value, ValueModel};

verus! {

/// A mapping from parameter names to typed values, in insertion order.
#[derive(Debug)]
pub struct ValueMap {
    entries: Vec<(String, Value)>,
}

impl View for ValueMap {
    type V = Seq<(Seq<char>, ValueModel)>;

    closed spec fn view(&self) -> Seq<(Seq<char>, ValueModel)> {
        self.entries@.map_values(|e: (String, Value)| (e.0@, e.1@))
    }
}

impl ValueMap {
    /// No name occurs twice.
    pub open spec fn wf(&self) -> bool {
        distinct_keys(self@)
    }

    pub fn new() -> (r: ValueMap)
        ensures
            r.wf(),
            r@ == Seq::<(Seq<char>, ValueModel)>::empty(),
    {
        let r = ValueMap { entries: Vec::new() };
        proof {
            assert(r@ =~= Seq::<(Seq<char>, ValueModel)>::empty());
        }
        r
    }

    pub fn len(&self) -> (r: usize)
        ensures
            r == self@.len(),
    {
        self.entries.len()
    }

    /// The name of the entry at `i`.
    pub fn key_at(&self, i: usize) -> (r: &String)
        requires
            i < self@.len(),
        ensures
            r@ == self@[i as int].0,
    {
        &self.entries[i].0
    }

    /// The value of the entry at `i`.
    pub fn value_at(&self, i: usize) -> (r: &Value)
        requires
            i < self@.len(),
        ensures
            r@ == self@[i as int].1,
    {
        &self.entries[i].1
    }

    fn find(&self, key: &str) -> (r: Option<usize>)
        ensures
            match r {
                Some(i) => key_index(self@, key@) == i as int,
                None => key_index(self@, key@) < 0,
            },
    {
        let n = self.entries.len();
        let mut i: usize = 0;
        proof {
            lemma_key_index(self@, key@);
        }
        while i < n
            invariant
                i <= n,
                n == self@.len(),
                n == self.entries@.len(),
                forall|j: int| 0 <= j < i ==> (#[trigger] self@[j]).0 != key@,
                key_index(self@, key@) >= 0 ==> key_index(self@, key@) < self@.len()
                    && self@[key_index(self@, key@)].0 == key@ && forall|j: int|
                    0 <= j < key_index(self@, key@) ==> (#[trigger] self@[j]).0 != key@,
                key_index(self@, key@) < 0 ==> forall|j: int|
                    0 <= j < self@.len() ==> (#[trigger] self@[j]).0 != key@,
            decreases n - i,
        {
            if text::str_eq(self.entries[i].0.as_str(), key) {
                proof {
                    let ki = key_index(self@, key@);
                    assert(self@[i as int].0 == key@);
                    assert(ki >= 0);
                    if ki < i {
                        assert(self@[ki].0 == key@);
                    } else if ki > i {
                        assert(self@[i as int].0 != key@);
                    }
                }
                return Some(i);
            }
            i += 1;
        }
        proof {
            if key_index(self@, key@) >= 0 {
                assert(self@[key_index(self@, key@)].0 != key@);
            }
        }
        None
    }

    /// Whether the map has an entry under this name.
    pub fn contains_key(&self, key: &str) -> (r: bool)
        ensures
            r == assoc_map_of(self@).dom().contains(key@),
    {
        proof {
            lemma_key_index(self@, key@);
            lemma_assoc_contains(self@, key@);
        }
        match self.find(key) {
            Some(_) => true,
            None => false,
        }
    }

    /// The value under this name, when there is one.
    pub fn get(&self, key: &str) -> (r: Option<&Value>)
        requires
            self.wf(),
        ensures
            (r is Some) == assoc_map_of(self@).dom().contains(key@),
            r matches Some(v) ==> v@ == assoc_map_of(self@)[key@],
    {
        proof {
            lemma_key_index(self@, key@);
            lemma_assoc_contains(self@, key@);
        }
        match self.find(key) {
            Some(i) => {
                proof {
                    lemma_assoc_index(self@, i as int);
                    assert(self@[i as int] == (self.entries@[i as int].0@, self.entries@[
                        i as int
                    ].1@));
                }
                Some(&self.entries[i].1)
            },
            None => None,
        }
    }

    /// Stores `value` under `key`: replaces the value in place when the
    /// name is present, appends a new entry otherwise.
    pub fn insert(&mut self, key: &str, value: Value)
        requires
            old(self).wf(),
        ensures
            final(self).wf(),
            key_index(old(self)@, key@) >= 0 ==> final(self)@ == old(self)@.update(
                key_index(old(self)@, key@),
                (key@, value@),
            ),
            key_index(old(self)@, key@) < 0 ==> final(self)@ == old(self)@.push((key@, value@)),
            assoc_map_of(final(self)@) == assoc_map_of(old(self)@).insert(key@, value@),
    {
        let ghost prev = self@;
        proof {
            lemma_key_index(prev, key@);
        }
        match self.find(key) {
            Some(i) => {
                let _ = self.entries.remove(i);
                self.entries.insert(i, (key.to_owned(), value));
                proof {
                    assert(self@ =~= prev.update(i as int, (key@, value@)));
                    lemma_assoc_update(prev, i as int, (key@, value@));
                }
            },
            None => {
                self.entries.push((key.to_owned(), value));
                proof {
                    assert(self@ =~= prev.push((key@, value@)));
                    lemma_assoc_push(prev, (key@, value@));
                }
            },
        }
    }
}

/// A mapping from parameter names to raw strings, in insertion order.
#[derive(Debug)]
pub struct StringMap {
    entries: Vec<(String, String)>,
}

impl View for StringMap {
    type V = Seq<(Seq<char>, Seq<char>)>;

    closed spec fn view(&self) -> Seq<(Seq<char>, Seq<char>)> {
        self.entries@.map_values(|e: (String, String)| (e.0@, e.1@))
    }
}

impl StringMap {
    /// No name occurs twice.
    pub open spec fn wf(&self) -> bool {
        distinct_keys(self@)
    }

    pub fn new() -> (r: StringMap)
        ensures
            r.wf(),
            r@ == Seq::<(Seq<char>, Seq<char>)>::empty(),
    {
        let r = StringMap { entries: Vec::new() };
        proof {
            assert(r@ =~= Seq::<(Seq<char>, Seq<char>)>::empty());
        }
        r
    }

    pub fn len(&self) -> (r: usize)
        ensures
            r == self@.len(),
    {
        self.entries.len()
    }

    /// The name of the entry at `i`.
    pub fn key_at(&self, i: usize) -> (r: &String)
        requires
            i < self@.len(),
        ensures
            r@ == self@[i as int].0,
    {
        &self.entries[i].0
    }

    /// The raw string of the entry at `i`.
    pub fn value_at(&self, i: usize) -> (r: &String)
        requires
            i < self@.len(),
        ensures
            r@ == self@[i as int].1,
    {
        &self.entries[i].1
    }

    fn find(&self, key: &str) -> (r: Option<usize>)
        ensures
            match r {
                Some(i) => key_index(self@, key@) == i as int,
                None => key_index(self@, key@) < 0,
            },
    {
        let n = self.entries.len();
        let mut i: usize = 0;
        proof {
            lemma_key_index(self@, key@);
        }
        while i < n
            invariant
                i <= n,
                n == self@.len(),
                n == self.entries@.len(),
                forall|j: int| 0 <= j < i ==> (#[trigger] self@[j]).0 != key@,
                key_index(self@, key@) >= 0 ==> key_index(self@, key@) < self@.len()
                    && self@[key_index(self@, key@)].0 == key@ && forall|j: int|
                    0 <= j < key_index(self@, key@) ==> (#[trigger] self@[j]).0 != key@,
                key_index(self@, key@) < 0 ==> forall|j: int|
                    0 <= j < self@.len() ==> (#[trigger] self@[j]).0 != key@,
            decreases n - i,
        {
            if text::str_eq(self.entries[i].0.as_str(), key) {
                proof {
                    let ki = key_index(self@, key@);
                    assert(self@[i as int].0 == key@);
                    assert(ki >= 0);
                    if ki < i {
                        assert(self@[ki].0 == key@);
                    } else if ki > i {
                        assert(self@[i as int].0 != key@);
                    }
                }
                return Some(i);
            }
            i += 1;
        }
        proof {
            if key_index(self@, key@) >= 0 {
                assert(self@[key_index(self@, key@)].0 != key@);
            }
        }
        None
    }

    /// Whether the map has an entry under this name.
    pub fn contains_key(&self, key: &str) -> (r: bool)
        ensures
            r == assoc_map_of(self@).dom().contains(key@),
    {
        proof {
            lemma_key_index(self@, key@);
            lemma_assoc_contains(self@, key@);
        }
        match self.find(key) {
            Some(_) => true,
            None => false,
        }
    }

    /// The raw string under this name, when there is one.
    pub fn get(&self, key: &str) -> (r: Option<&String>)
        requires
            self.wf(),
        ensures
            (r is Some) == assoc_map_of(self@).dom().contains(key@),
            r matches Some(v) ==> v@ == assoc_map_of(self@)[key@],
    {
        proof {
            lemma_key_index(self@, key@);
            lemma_assoc_contains(self@, key@);
        }
        match self.find(key) {
            Some(i) => {
                proof {
                    lemma_assoc_index(self@, i as int);
                    assert(self@[i as int] == (self.entries@[i as int].0@, self.entries@[
                        i as int
                    ].1@));
                }
                Some(&self.entries[i].1)
            },
            None => None,
        }
    }

    /// Stores `value` under `key`: replaces the value in place when the
    /// name is present, appends a new entry otherwise.
    pub fn insert(&mut self, key: &str, value: &str)
        requires
            old(self).wf(),
        ensures
            final(self).wf(),
            key_index(old(self)@, key@) >= 0 ==> final(self)@ == old(self)@.update(
                key_index(old(self)@, key@),
                (key@, value@),
            ),
            key_index(old(self)@, key@) < 0 ==> final(self)@ == old(self)@.push((key@, value@)),
            assoc_map_of(final(self)@) == assoc_map_of(old(self)@).insert(key@, value@),
    {
        let ghost prev = self@;
        proof {
            lemma_key_index(prev, key@);
        }
        match self.find(key) {
            Some(i) => {
                let _ = self.entries.remove(i);
                self.entries.insert(i, (key.to_owned(), value.to_owned()));
                proof {
                    assert(self@ =~= prev.update(i as int, (key@, value@)));
                    lemma_assoc_update(prev, i as int, (key@, value@));
                }
            },
            None => {
                self.entries.push((key.to_owned(), value.to_owned()));
                proof {
                    assert(self@ =~= prev.push((key@, value@)));
                    lemma_assoc_push(prev, (key@, value@));
                }
            },
        }
    }
}

} // verus!
