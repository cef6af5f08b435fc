//! A small map from paths to values.
//!
//! The map is meant for a handful of entries: it is searched from one end to
//! the other.

use vstd::prelude::*;

verus! {

/// The map that a list of entries stands for; where a path occurs twice, the
/// later entry counts.
pub open spec fn to_map<V>(entries: Seq<(String, V)>) -> Map<Seq<char>, V>
    decreases entries.len(),
{
    if entries.len() == 0 {
        Map::empty()
    } else {
        to_map(entries.drop_last()).insert(entries.last().0@, entries.last().1)
    }
}

/// No path occurs twice.
pub open spec fn distinct_paths<V>(entries: Seq<(String, V)>) -> bool {
    forall|i: int, j: int| 0 <= i < j < entries.len() ==> entries[i].0@ != entries[j].0@
}

/// The map of a list without repeated paths holds each entry of the list,
/// and nothing else.
pub proof fn lemma_to_map<V>(entries: Seq<(String, V)>)
    requires
        distinct_paths(entries),
    ensures
        forall|k: Seq<char>| #[trigger]
            to_map(entries).dom().contains(k) <==> exists|i: int|
                0 <= i < entries.len() && (#[trigger] entries[i]).0@ == k,
        forall|i: int|
            0 <= i < entries.len() ==> to_map(entries).dom().contains((#[trigger] entries[i]).0@)
                && to_map(entries)[entries[i].0@] == entries[i].1,
    decreases entries.len(),
{
    if entries.len() > 0 {
        let front = entries.drop_last();
        let last = entries.last();
        assert forall|i: int, j: int| 0 <= i < j < front.len() implies front[i].0@
            != front[j].0@ by {
            assert(front[i] == entries[i] && front[j] == entries[j]);
        }
        lemma_to_map(front);
        assert(to_map(entries) == to_map(front).insert(last.0@, last.1));
        assert forall|k: Seq<char>| #[trigger]
            to_map(entries).dom().contains(k) <==> exists|i: int|
                0 <= i < entries.len() && (#[trigger] entries[i]).0@ == k by {
            if to_map(entries).dom().contains(k) {
                if k == last.0@ {
                    assert(entries[entries.len() - 1].0@ == k);
                } else {
                    assert(to_map(front).dom().contains(k));
                    let i = choose|i: int| 0 <= i < front.len() && (#[trigger] front[i]).0@ == k;
                    assert(entries[i].0@ == k);
                }
            }
            if exists|i: int| 0 <= i < entries.len() && (#[trigger] entries[i]).0@ == k {
                let i = choose|i: int| 0 <= i < entries.len() && (#[trigger] entries[i]).0@ == k;
                if i < front.len() {
                    assert(front[i].0@ == k);
                    assert(to_map(front).dom().contains(k));
                }
            }
        }
        assert forall|i: int| 0 <= i < entries.len() implies to_map(entries).dom().contains(
            (#[trigger] entries[i]).0@,
        ) && to_map(entries)[entries[i].0@] == entries[i].1 by {
            if i < front.len() {
                assert(front[i] == entries[i]);
            }
        }
    }
}

/// Taking an entry out of the list takes its path out of the map.
pub proof fn lemma_to_map_remove<V>(entries: Seq<(String, V)>, at: int)
    requires
        distinct_paths(entries),
        0 <= at < entries.len(),
    ensures
        distinct_paths(entries.remove(at)),
        to_map(entries.remove(at)) == to_map(entries).remove(entries[at].0@),
{
    let rest = entries.remove(at);
    let key = entries[at].0@;
    assert forall|i: int, j: int| 0 <= i < j < rest.len() implies rest[i].0@ != rest[j].0@ by {
        let a = if i < at { i } else { i + 1 };
        let b = if j < at { j } else { j + 1 };
        assert(rest[i] == entries[a] && rest[j] == entries[b]);
    }
    lemma_to_map(entries);
    lemma_to_map(rest);
    assert forall|k: Seq<char>| #[trigger]
        to_map(rest).dom().contains(k) <==> to_map(entries).remove(key).dom().contains(k) by {
        if to_map(rest).dom().contains(k) {
            let i = choose|i: int| 0 <= i < rest.len() && (#[trigger] rest[i]).0@ == k;
            let a = if i < at { i } else { i + 1 };
            assert(entries[a] == rest[i]);
        }
        if to_map(entries).remove(key).dom().contains(k) {
            let a = choose|a: int| 0 <= a < entries.len() && (#[trigger] entries[a]).0@ == k;
            let i = if a < at { a } else { a - 1 };
            assert(rest[i] == entries[a]);
        }
    }
    assert forall|k: Seq<char>| #[trigger] to_map(rest).dom().contains(k) implies to_map(rest)[k]
        == to_map(entries).remove(key)[k] by {
        let i = choose|i: int| 0 <= i < rest.len() && (#[trigger] rest[i]).0@ == k;
        let a = if i < at { i } else { i + 1 };
        assert(entries[a] == rest[i]);
    }
    assert(to_map(rest) =~= to_map(entries).remove(key));
}

/// A map from paths to values of type `V`.
pub struct PathMap<V> {
    entries: Vec<(String, V)>,
}

impl<V> View for PathMap<V> {
    type V = Map<Seq<char>, V>;

    closed spec fn view(&self) -> Map<Seq<char>, V> {
        to_map(self.entries@)
    }
}

impl<V> PathMap<V> {
    #[verifier::type_invariant]
    spec fn inv(&self) -> bool {
        distinct_paths(self.entries@)
    }

    /// Creates an empty map.
    pub fn new() -> (map: Self)
        ensures
            map@ == Map::<Seq<char>, V>::empty(),
    {
        PathMap { entries: Vec::new() }
    }

    /// Finds the entry for `key`.
    fn position(&self, key: &String) -> (at: Option<usize>)
        ensures
            at matches Some(i) ==> i < self.entries@.len() && self.entries@[i as int].0@ == key@,
            at is None ==> forall|i: int|
                0 <= i < self.entries@.len() ==> (#[trigger] self.entries@[i]).0@ != key@,
    {
        let mut i: usize = 0;
        while i < self.entries.len()
            invariant
                i <= self.entries@.len(),
                forall|j: int| 0 <= j < i ==> (#[trigger] self.entries@[j]).0@ != key@,
            decreases self.entries@.len() - i,
        {
            if self.entries[i].0 == *key {
                return Some(i);
            }
            i = i + 1;
        }
        None
    }

    /// Returns the value stored for `key`, if there is one.
    pub fn get(&self, key: &String) -> (found: Option<&V>)
        ensures
            found matches Some(value) ==> self@.dom().contains(key@) && self@[key@] == *value,
            found is None ==> !self@.dom().contains(key@),
    {
        proof {
            use_type_invariant(self);
            lemma_to_map(self.entries@);
        }
        match self.position(key) {
            Some(i) => Some(&self.entries[i].1),
            None => None,
        }
    }

    /// Tells whether there is a value for `key`.
    pub fn contains(&self, key: &String) -> (held: bool)
        ensures
            held == self@.dom().contains(key@),
    {
        self.get(key).is_some()
    }

    /// Stores `value` for `key`, in place of what was stored for it before.
    pub fn insert(&mut self, key: String, value: V)
        ensures
            final(self)@ == old(self)@.insert(key@, value),
    {
        proof {
            use_type_invariant(&*self);
        }
        let found = self.position(&key);
        let mut entries: Vec<(String, V)> = Vec::new();
        std::mem::swap(&mut entries, &mut self.entries);
        let ghost before = entries@;
        if let Some(i) = found {
            entries.remove(i);
            proof {
                lemma_to_map_remove(before, i as int);
            }
        } else {
            proof {
                lemma_to_map(before);
                assert(to_map(before) =~= to_map(before).remove(key@));
            }
        }
        let ghost without = entries@;
        entries.push((key, value));
        proof {
            lemma_to_map(without);
            assert(entries@.drop_last() =~= without);
            assert(to_map(entries@) =~= to_map(before).insert(key@, value));
            assert forall|i: int, j: int| 0 <= i < j < entries@.len() implies entries@[i].0@
                != entries@[j].0@ by {
                assert(entries@[i] == without[i]);
                if j < without.len() {
                    assert(entries@[j] == without[j]);
                }
            }
        }
        self.entries = entries;
    }

    /// Removes what is stored for `key`, if anything.
    pub fn remove(&mut self, key: &String)
        ensures
            final(self)@ == old(self)@.remove(key@),
    {
        proof {
            use_type_invariant(&*self);
        }
        let found = self.position(key);
        let mut entries: Vec<(String, V)> = Vec::new();
        std::mem::swap(&mut entries, &mut self.entries);
        let ghost before = entries@;
        if let Some(i) = found {
            entries.remove(i);
            proof {
                lemma_to_map_remove(before, i as int);
            }
        } else {
            proof {
                lemma_to_map(before);
                assert(to_map(before) =~= to_map(before).remove(key@));
            }
        }
        self.entries = entries;
    }

    /// Removes everything.
    pub fn clear(&mut self)
        ensures
            final(self)@ == Map::<Seq<char>, V>::empty(),
    {
        self.entries = Vec::new();
    }
}

} // verus!
