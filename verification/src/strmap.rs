//! A map from strings to strings, kept as a list of entries.

use vstd::prelude::*;

verus! {

/// A map from strings to strings. It serves for the attributes of an
/// element, for the declarations of a style rule and for the resolved
/// style of a node.
#[derive(Debug)]
pub struct StrMap {
    entries: Vec<(String, String)>,
}

/// The map that a list of entries stands for: a later entry replaces an
/// earlier one with the same key.
pub closed spec fn entries_map(e: Seq<(String, String)>) -> Map<Seq<char>, Seq<char>>
    decreases e.len(),
{
    if e.len() == 0 {
        Map::empty()
    } else {
        entries_map(e.drop_last()).insert(e.last().0@, e.last().1@)
    }
}

/// The place of the last entry with key `k`, or -1 where there is none.
spec fn last_index(e: Seq<(String, String)>, k: Seq<char>) -> int
    decreases e.len(),
{
    if e.len() == 0 {
        -1
    } else if e.last().0@ == k {
        e.len() - 1
    } else {
        last_index(e.drop_last(), k)
    }
}

proof fn lemma_last_index(e: Seq<(String, String)>, k: Seq<char>)
    ensures
        -1 <= last_index(e, k) < e.len(),
        last_index(e, k) >= 0 ==> e[last_index(e, k)].0@ == k,
        forall|j: int| last_index(e, k) < j < e.len() ==> (#[trigger] e[j]).0@ != k,
        entries_map(e).contains_key(k) <==> last_index(e, k) >= 0,
        last_index(e, k) >= 0 ==> entries_map(e)[k] == e[last_index(e, k)].1@,
    decreases e.len(),
{
    if e.len() > 0 {
        lemma_last_index(e.drop_last(), k);
        if e.last().0@ != k {
            assert forall|j: int| last_index(e, k) < j < e.len() implies (#[trigger] e[j]).0@
                != k by {
                if j < e.len() - 1 {
                    assert(e[j] == e.drop_last()[j]);
                }
            }
        }
    }
}

proof fn lemma_replace_last(e: Seq<(String, String)>, i: int, entry: (String, String))
    requires
        0 <= i < e.len(),
        i == last_index(e, entry.0@),
    ensures
        entries_map(e.update(i, entry)) == entries_map(e).insert(entry.0@, entry.1@),
    decreases e.len(),
{
    let k = entry.0@;
    lemma_last_index(e, k);
    if i == e.len() - 1 {
        assert(e.update(i, entry).drop_last() == e.drop_last());
    } else {
        lemma_replace_last(e.drop_last(), i, entry);
        assert(e.update(i, entry).drop_last() == e.drop_last().update(i, entry));
    }
}

impl View for StrMap {
    type V = Map<Seq<char>, Seq<char>>;

    closed spec fn view(&self) -> Map<Seq<char>, Seq<char>> {
        entries_map(self.entries@)
    }
}

impl Clone for StrMap {
    fn clone(&self) -> (r: Self)
        ensures
            r@ == self@,
    {
        let mut entries: Vec<(String, String)> = Vec::new();
        let mut i: usize = 0;
        while i < self.entries.len()
            invariant
                i <= self.entries.len(),
                entries@.len() == i,
                forall|j: int| 0 <= j < i ==> (#[trigger] entries@[j]).0@ == self.entries@[j].0@
                    && entries@[j].1@ == self.entries@[j].1@,
            decreases self.entries.len() - i,
        {
            entries.push((self.entries[i].0.clone(), self.entries[i].1.clone()));
            i += 1;
        }
        proof {
            lemma_same_views(entries@, self.entries@);
        }
        StrMap { entries }
    }
}

proof fn lemma_same_views(a: Seq<(String, String)>, b: Seq<(String, String)>)
    requires
        a.len() == b.len(),
        forall|j: int| 0 <= j < a.len() ==> (#[trigger] a[j]).0@ == b[j].0@ && a[j].1@ == b[j].1@,
    ensures
        entries_map(a) == entries_map(b),
    decreases a.len(),
{
    if a.len() > 0 {
        lemma_same_views(a.drop_last(), b.drop_last());
    }
}

impl StrMap {
    /// The empty map.
    pub fn new() -> (m: StrMap)
        ensures
            m@ == Map::<Seq<char>, Seq<char>>::empty(),
    {
        StrMap { entries: Vec::new() }
    }

    fn find(&self, key: &String) -> (r: Option<usize>)
        ensures
            match r {
                Some(i) => i < self.entries@.len() && i == last_index(self.entries@, key@),
                None => last_index(self.entries@, key@) == -1,
            },
    {
        let mut i: usize = self.entries.len();
        proof {
            lemma_last_index(self.entries@, key@);
        }
        while i > 0
            invariant
                i <= self.entries.len(),
                last_index(self.entries@, key@) < i,
            decreases i,
        {
            i -= 1;
            proof {
                lemma_last_index(self.entries@, key@);
            }
            if self.entries[i].0 == *key {
                return Some(i);
            }
        }
        None
    }

    /// Binds `key` to `value`; an earlier binding of `key` is replaced.
    pub fn insert(&mut self, key: String, value: String)
        ensures
            final(self)@ == old(self)@.insert(key@, value@),
    {
        match self.find(&key) {
            Some(i) => {
                proof {
                    lemma_replace_last(self.entries@, i as int, (key, value));
                }
                self.entries[i] = (key, value);
            },
            None => {
                self.entries.push((key, value));
                assert(self.entries@.drop_last() == old(self).entries@);
            },
        }
    }

    /// The value bound to `key`, if there is one.
    pub fn get(&self, key: &str) -> (r: Option<&String>)
        ensures
            match r {
                Some(v) => self@.contains_key(key@) && v@ == self@[key@],
                None => !self@.contains_key(key@),
            },
    {
        let k = key.to_string();
        proof {
            lemma_last_index(self.entries@, key@);
        }
        match self.find(&k) {
            Some(i) => Some(&self.entries[i].1),
            None => None,
        }
    }

    /// Whether `key` is bound.
    pub fn contains_key(&self, key: &str) -> (b: bool)
        ensures
            b == self@.contains_key(key@),
    {
        self.get(key).is_some()
    }

    /// Whether nothing is bound.
    pub fn is_empty(&self) -> (b: bool)
        ensures
            b == (self@ == Map::<Seq<char>, Seq<char>>::empty()),
    {
        proof {
            if self.entries@.len() > 0 {
                assert(self@.contains_key(self.entries@.last().0@));
            }
        }
        self.entries.len() == 0
    }

    /// Adds every binding of `other`; where both bind a key, that of
    /// `other` stays.
    pub fn extend(&mut self, other: &StrMap)
        ensures
            final(self)@ == old(self)@.union_prefer_right(other@),
    {
        let mut i: usize = 0;
        while i < other.entries.len()
            invariant
                i <= other.entries.len(),
                self@ == old(self)@.union_prefer_right(entries_map(other.entries@.take(i as int))),
            decreases other.entries.len() - i,
        {
            let key = other.entries[i].0.clone();
            let value = other.entries[i].1.clone();
            proof {
                let e = other.entries@;
                assert(e.take(i + 1).drop_last() == e.take(i as int));
            }
            self.insert(key, value);
            i += 1;
        }
        assert(other.entries@.take(other.entries@.len() as int) == other.entries@);
    }
}

} // verus!
