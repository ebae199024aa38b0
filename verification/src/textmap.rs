//! A small map from text to text, kept as a list of entries.

use vstd::prelude::*;

verus! {

/// A map from text to text. Where a key stands in several entries, the
/// last one counts.
#[derive(Debug, Clone)]
pub struct TextMap {
    entries: Vec<(String, String)>,
}

/// The entries of a list as pairs of texts.
pub open spec fn pairs(entries: Seq<(String, String)>) -> Seq<(Seq<char>, Seq<char>)> {
    Seq::new(entries.len(), |i: int| (entries[i].0@, entries[i].1@))
}

/// The map that a list of entries stands for.
pub open spec fn map_of(p: Seq<(Seq<char>, Seq<char>)>) -> Map<Seq<char>, Seq<char>>
    decreases p.len(),
{
    if p.len() == 0 {
        Map::empty()
    } else {
        map_of(p.drop_last()).insert(p.last().0, p.last().1)
    }
}

/// Entries that do not hold a key do not change what the map says of it.
proof fn lemma_map_of_tail(p: Seq<(Seq<char>, Seq<char>)>, j: int, key: Seq<char>)
    requires
        0 <= j <= p.len(),
        forall|t: int| j <= t < p.len() ==> (#[trigger] p[t]).0 != key,
    ensures
        map_of(p).contains_key(key) == map_of(p.take(j)).contains_key(key),
        map_of(p).contains_key(key) ==> map_of(p)[key] == map_of(p.take(j))[key],
    decreases p.len() - j,
{
    if j == p.len() {
        assert(p.take(j) =~= p);
    } else {
        let q = p.drop_last();
        assert(p[p.len() - 1].0 != key);
        lemma_map_of_tail(q, j, key);
        assert(q.take(j) =~= p.take(j));
    }
}

/// The last entry that holds a key gives the map's value for it.
proof fn lemma_map_of_last(p: Seq<(Seq<char>, Seq<char>)>, i: int, key: Seq<char>)
    requires
        0 <= i < p.len(),
        p[i].0 == key,
        forall|t: int| i < t < p.len() ==> (#[trigger] p[t]).0 != key,
    ensures
        map_of(p).contains_key(key),
        map_of(p)[key] == p[i].1,
{
    lemma_map_of_tail(p, i + 1, key);
    assert(p.take(i + 1).drop_last() =~= p.take(i));
    assert(p.take(i + 1).last() == p[i]);
}

/// Replacing the value of the last entry that holds a key sets the map's
/// value for it.
proof fn lemma_map_of_replace(p: Seq<(Seq<char>, Seq<char>)>, i: int, key: Seq<char>, value: Seq<char>)
    requires
        0 <= i < p.len(),
        p[i].0 == key,
        forall|t: int| i < t < p.len() ==> (#[trigger] p[t]).0 != key,
    ensures
        map_of(p.update(i, (key, value))) == map_of(p).insert(key, value),
    decreases p.len(),
{
    let q = p.update(i, (key, value));
    if i == p.len() - 1 {
        assert(q.drop_last() =~= p.drop_last());
        assert(map_of(q) =~= map_of(p).insert(key, value));
    } else {
        lemma_map_of_replace(p.drop_last(), i, key, value);
        assert(q.drop_last() =~= p.drop_last().update(i, (key, value)));
        assert(p[p.len() - 1].0 != key);
        assert(map_of(q) =~= map_of(p).insert(key, value));
    }
}

impl View for TextMap {
    type V = Map<Seq<char>, Seq<char>>;

    open spec fn view(&self) -> Map<Seq<char>, Seq<char>> {
        map_of(pairs(self.entries_view()))
    }
}

impl TextMap {
    /// The entries as they are held.
    pub closed spec fn entries_view(&self) -> Seq<(String, String)> {
        self.entries@
    }

    /// A map without entries.
    pub fn new() -> (m: TextMap)
        ensures
            m@ == Map::<Seq<char>, Seq<char>>::empty(),
    {
        let m = TextMap { entries: Vec::new() };
        assert(pairs(m.entries@) =~= Seq::empty());
        m
    }

    /// The position of the last entry that holds the key.
    fn find(&self, key: &String) -> (r: Option<usize>)
        ensures
            match r {
                Some(i) => i < self.entries@.len() && self.entries@[i as int].0@ == key@
                    && forall|t: int|
                    i < t < self.entries@.len() ==> (#[trigger] self.entries@[t]).0@ != key@,
                None => forall|t: int|
                    0 <= t < self.entries@.len() ==> (#[trigger] self.entries@[t]).0@ != key@,
            },
    {
        let mut j: usize = self.entries.len();
        while j > 0
            invariant
                j <= self.entries@.len(),
                forall|t: int| j <= t < self.entries@.len() ==> (#[trigger] self.entries@[t]).0@ != key@,
            decreases j,
        {
            j = j - 1;
            if self.entries[j].0 == *key {
                return Some(j);
            }
        }
        None
    }

    /// The value of a key, if it has one.
    pub fn get(&self, key: &str) -> (v: Option<String>)
        ensures
            v is Some <==> self@.contains_key(key@),
            v is Some ==> v->0@ == self@[key@],
    {
        let key_owned: String = key.to_owned();
        let ghost p = pairs(self.entries@);
        match self.find(&key_owned) {
            Some(i) => {
                proof {
                    assert(p[i as int].0 == key@);
                    assert forall|t: int| i < t < p.len() implies (#[trigger] p[t]).0 != key@ by {
                        assert(self.entries@[t].0@ != key@);
                    }
                    lemma_map_of_last(p, i as int, key@);
                }
                Some(self.entries[i].1.clone())
            },
            None => {
                proof {
                    assert forall|t: int| 0 <= t < p.len() implies (#[trigger] p[t]).0 != key@ by {
                        assert(self.entries@[t].0@ != key@);
                    }
                    lemma_map_of_tail(p, 0, key@);
                    assert(p.take(0) =~= Seq::empty());
                }
                None
            },
        }
    }

    /// Gives a key a value, in place of the one it had.
    pub fn set(&mut self, key: &str, value: &str)
        ensures
            final(self)@ == old(self)@.insert(key@, value@),
    {
        let key_owned: String = key.to_owned();
        let ghost p = pairs(self.entries@);
        match self.find(&key_owned) {
            Some(i) => {
                proof {
                    assert(p[i as int].0 == key@);
                    assert forall|t: int| i < t < p.len() implies (#[trigger] p[t]).0 != key@ by {
                        assert(self.entries@[t].0@ != key@);
                    }
                    lemma_map_of_replace(p, i as int, key@, value@);
                }
                self.entries[i] = (key_owned, value.to_owned());
                assert(pairs(self.entries@) =~= p.update(i as int, (key@, value@)));
            },
            None => {
                self.entries.push((key_owned, value.to_owned()));
                assert(pairs(self.entries@) =~= p.push((key@, value@)));
                assert(pairs(self.entries@).drop_last() =~= p);
            },
        }
    }

    /// Takes a key and its value out of the map.
    pub fn remove(&mut self, key: &str)
        ensures
            final(self)@ == old(self)@.remove(key@),
    {
        let key_owned: String = key.to_owned();
        let ghost p = pairs(self.entries@);
        let mut kept: Vec<(String, String)> = Vec::new();
        let mut j: usize = 0;
        assert(pairs(kept@) =~= Seq::empty());
        assert(p.take(0) =~= Seq::empty());
        assert(map_of(pairs(kept@)) =~= map_of(p.take(0)).remove(key@));
        while j < self.entries.len()
            invariant
                j <= self.entries@.len(),
                p == pairs(self.entries@),
                key_owned@ == key@,
                map_of(pairs(kept@)) == map_of(p.take(j as int)).remove(key@),
            decreases self.entries@.len() - j,
        {
            let ghost before = pairs(kept@);
            assert(p.take(j + 1).drop_last() =~= p.take(j as int));
            assert(p.take(j + 1).last() == p[j as int]);
            if self.entries[j].0 == key_owned {
                assert(map_of(p.take(j + 1)).remove(key@) =~= map_of(p.take(j as int)).remove(key@));
            } else {
                kept.push((self.entries[j].0.clone(), self.entries[j].1.clone()));
                assert(pairs(kept@) =~= before.push(p[j as int]));
                assert(pairs(kept@).drop_last() =~= before);
                assert(map_of(pairs(kept@)) =~= map_of(p.take(j + 1)).remove(key@));
            }
            j = j + 1;
        }
        assert(p.take(j as int) =~= p);
        self.entries = kept;
    }

    /// Takes every key out of the map.
    pub fn clear(&mut self)
        ensures
            final(self)@ == Map::<Seq<char>, Seq<char>>::empty(),
    {
        self.entries = Vec::new();
        assert(pairs(self.entries@) =~= Seq::empty());
    }

    /// The keys of the map with their values, each key once, in the order
    /// in which the keys were first set.
    pub fn to_pairs(&self) -> (list: Vec<(String, String)>)
        ensures
            forall|i: int|
                0 <= i < list.len() ==> self@.contains_key((#[trigger] list[i]).0@) && self@[list[i].0@]
                    == list[i].1@,
            forall|k: Seq<char>|
                self@.contains_key(k) ==> exists|i: int|
                    0 <= i < list.len() && (#[trigger] list[i]).0@ == k,
            forall|i: int, j: int|
                0 <= i < j < list.len() ==> (#[trigger] list[i]).0@ != (#[trigger] list[j]).0@,
    {
        let ghost p = pairs(self.entries@);
        let mut list: Vec<(String, String)> = Vec::new();
        let mut j: usize = 0;
        while j < self.entries.len()
            invariant
                j <= self.entries@.len(),
                p == pairs(self.entries@),
                forall|i: int|
                    0 <= i < list.len() ==> self@.contains_key((#[trigger] list[i]).0@)
                        && self@[list[i].0@] == list[i].1@,
                forall|t: int|
                    0 <= t < j ==> exists|i: int|
                        0 <= i < list.len() && (#[trigger] list[i]).0@ == (#[trigger] p[t]).0,
                forall|i: int|
                    0 <= i < list.len() ==> exists|t: int|
                        0 <= t < j && (#[trigger] p[t]).0 == (#[trigger] list[i]).0@,
                forall|i: int, k: int|
                    0 <= i < k < list.len() ==> (#[trigger] list[i]).0@ != (#[trigger] list[k]).0@,
            decreases self.entries@.len() - j,
        {
            let key = &self.entries[j].0;
            assert(p[j as int].0 == key@);
            let mut seen = false;
            let mut i: usize = 0;
            while i < list.len()
                invariant
                    i <= list.len(),
                    seen == exists|t: int| 0 <= t < i && (#[trigger] list[t]).0@ == key@,
                decreases list.len() - i,
            {
                if list[i].0 == *key {
                    seen = true;
                }
                i = i + 1;
            }
            if !seen {
                match self.get(key.as_str()) {
                    Some(value) => {
                        let ghost before = list@;
                        list.push((key.clone(), value));
                        proof {
                            assert forall|t: int| 0 <= t < j + 1 implies exists|i: int|
                                0 <= i < list.len() && (#[trigger] list[i]).0@ == (#[trigger] p[t]).0 by {
                                if t < j {
                                    let i = choose|i: int|
                                        0 <= i < before.len() && (#[trigger] before[i]).0@ == p[t].0;
                                    assert(list[i].0@ == p[t].0);
                                } else {
                                    assert(list[list.len() - 1].0@ == p[t].0);
                                }
                            }
                            assert forall|i: int| 0 <= i < list.len() implies exists|t: int|
                                0 <= t < j + 1 && (#[trigger] p[t]).0 == (#[trigger] list[i]).0@ by {
                                if i < before.len() {
                                    let t = choose|t: int|
                                        0 <= t < j && (#[trigger] p[t]).0 == before[i].0@;
                                    assert(p[t].0 == list[i].0@);
                                } else {
                                    assert(p[j as int].0 == list[i].0@);
                                }
                            }
                        }
                    },
                    None => {
                        proof {
                            lemma_map_of_member(p, j as int);
                        }
                    },
                }
            } else {
                proof {
                    assert forall|t: int| 0 <= t < j + 1 implies exists|i: int|
                        0 <= i < list.len() && (#[trigger] list[i]).0@ == (#[trigger] p[t]).0 by {
                        if t == j {
                            let i = choose|i: int| 0 <= i < list.len() && (#[trigger] list[i]).0@ == key@;
                            assert(list[i].0@ == p[t].0);
                        }
                    }
                }
            }
            j = j + 1;
        }
        proof {
            assert forall|k: Seq<char>| self@.contains_key(k) implies exists|i: int|
                0 <= i < list.len() && (#[trigger] list[i]).0@ == k by {
                let t = lemma_map_of_key(p, k);
                let i = choose|i: int| 0 <= i < list.len() && (#[trigger] list[i]).0@ == p[t].0;
                assert(list[i].0@ == k);
            }
        }
        list
    }
}

/// The key of every entry is a key of the map.
proof fn lemma_map_of_member(p: Seq<(Seq<char>, Seq<char>)>, i: int)
    requires
        0 <= i < p.len(),
    ensures
        map_of(p).contains_key(p[i].0),
    decreases p.len(),
{
    if i < p.len() - 1 {
        lemma_map_of_member(p.drop_last(), i);
    }
}

/// Every key of the map is the key of an entry.
proof fn lemma_map_of_key(p: Seq<(Seq<char>, Seq<char>)>, key: Seq<char>) -> (i: int)
    requires
        map_of(p).contains_key(key),
    ensures
        0 <= i < p.len(),
        p[i].0 == key,
    decreases p.len(),
{
    if p.last().0 == key {
        p.len() - 1
    } else {
        lemma_map_of_key(p.drop_last(), key)
    }
}

} // verus!
