//! A size-accounted cache that evicts its oldest entries first.
//!
//! Entries are kept in insertion order under the path of the file they were
//! made from. Every value reports its own byte footprint; the cache keeps the
//! sum of the footprints at or below a target, evicting from the old end
//! before a new entry goes in. A single entry larger than the target is still
//! admitted, alone.

use std::collections::VecDeque;
use vstd::prelude::*;

verus! {

/// A value that reports how many bytes it occupies.
pub trait GetSize {
    /// The byte footprint of the value.
    spec fn spec_size(&self) -> nat;

    /// Returns the byte footprint of the value.
    fn get_size(&self) -> (n: usize)
        ensures
            n == self.spec_size(),
    ;
}

/// The sum of the byte footprints of `entries`.
pub open spec fn total_size<T: GetSize>(entries: Seq<(Seq<char>, T)>) -> nat
    decreases entries.len(),
{
    if entries.len() == 0 {
        0
    } else {
        total_size(entries.drop_last()) + entries.last().1.spec_size()
    }
}

/// The value of the oldest entry stored under `key`, if there is one.
pub open spec fn lookup<T>(entries: Seq<(Seq<char>, T)>, key: Seq<char>) -> Option<T>
    decreases entries.len(),
{
    if entries.len() == 0 {
        None
    } else if entries[0].0 == key {
        Some(entries[0].1)
    } else {
        lookup(entries.drop_first(), key)
    }
}

/// No two entries share a key.
pub open spec fn distinct_keys<T>(entries: Seq<(Seq<char>, T)>) -> bool {
    forall|i: int, j: int| 0 <= i < j < entries.len() ==> entries[i].0 != entries[j].0
}

/// The entries fit the target, or there is just one entry.
pub open spec fn bounded<T: GetSize>(entries: Seq<(Seq<char>, T)>, target: nat) -> bool {
    total_size(entries) <= target || entries.len() == 1
}

/// What is left of `entries` once room has been made for `incoming` more
/// bytes: the oldest entry goes, again and again, while the rest together
/// with the newcomer would exceed `target`.
pub open spec fn evicted<T: GetSize>(
    entries: Seq<(Seq<char>, T)>,
    incoming: nat,
    target: nat,
) -> Seq<(Seq<char>, T)>
    decreases entries.len(),
{
    if entries.len() > 0 && total_size(entries) + incoming > target {
        evicted(entries.drop_first(), incoming, target)
    } else {
        entries
    }
}

/// The entries after `value` has been pushed under `key`. A key that is
/// already there wins: nothing changes. Otherwise room is made and the new
/// entry becomes the youngest.
pub open spec fn pushed<T: GetSize>(
    entries: Seq<(Seq<char>, T)>,
    target: nat,
    key: Seq<char>,
    value: T,
) -> Seq<(Seq<char>, T)> {
    if lookup(entries, key) is Some {
        entries
    } else {
        evicted(entries, value.spec_size(), target).push((key, value))
    }
}

/// The entries after each of `items` has been pushed in turn.
pub open spec fn pushed_all<T: GetSize>(
    entries: Seq<(Seq<char>, T)>,
    target: nat,
    items: Seq<(Seq<char>, T)>,
) -> Seq<(Seq<char>, T)>
    decreases items.len(),
{
    if items.len() == 0 {
        entries
    } else {
        pushed(
            pushed_all(entries, target, items.drop_last()),
            target,
            items.last().0,
            items.last().1,
        )
    }
}

/// Adding an entry at the young end adds its footprint to the total.
pub proof fn lemma_total_size_push<T: GetSize>(entries: Seq<(Seq<char>, T)>, entry: (Seq<char>, T))
    ensures
        total_size(entries.push(entry)) == total_size(entries) + entry.1.spec_size(),
{
    assert(entries.push(entry).drop_last() =~= entries);
}

/// Removing the oldest entry takes its footprint from the total.
pub proof fn lemma_total_size_drop_first<T: GetSize>(entries: Seq<(Seq<char>, T)>)
    requires
        entries.len() > 0,
    ensures
        total_size(entries) == entries[0].1.spec_size() + total_size(entries.drop_first()),
    decreases entries.len(),
{
    if entries.len() == 1 {
        assert(entries.drop_last() =~= entries.drop_first());
    } else {
        lemma_total_size_drop_first(entries.drop_last());
        assert(entries.drop_last().drop_first() =~= entries.drop_first().drop_last());
    }
}

/// `lookup` finds nothing exactly when no entry has the key, and what it
/// finds is the value of an entry with that key.
pub proof fn lemma_lookup<T>(entries: Seq<(Seq<char>, T)>, key: Seq<char>)
    ensures
        lookup(entries, key) is None <==> forall|i: int|
            0 <= i < entries.len() ==> (#[trigger] entries[i]).0 != key,
        lookup(entries, key) matches Some(v) ==> exists|i: int|
            0 <= i < entries.len() && #[trigger] entries[i] == (key, v),
    decreases entries.len(),
{
    if entries.len() > 0 {
        let rest = entries.drop_first();
        lemma_lookup(rest, key);
        if entries[0].0 == key {
            assert(entries[0] == (key, entries[0].1));
        } else {
            assert forall|i: int| 0 <= i < rest.len() implies #[trigger] rest[i] == entries[i
                + 1] by {}
            if lookup(entries, key) is None {
                assert forall|i: int| 0 <= i < entries.len() implies (#[trigger] entries[i]).0
                    != key by {
                    if i > 0 {
                        assert(rest[i - 1] == entries[i]);
                    }
                }
            } else {
                let v = lookup(rest, key)->Some_0;
                let i = choose|i: int| 0 <= i < rest.len() && #[trigger] rest[i] == (key, v);
                assert(entries[i + 1] == (key, v));
            }
        }
    }
}

/// What eviction leaves is a run of the youngest entries. It is the longest
/// such run that fits beside the newcomer: it fits unless nothing is left,
/// and no longer run would have fitted.
pub proof fn lemma_evicted_is_longest_fitting_suffix<T: GetSize>(
    entries: Seq<(Seq<char>, T)>,
    incoming: nat,
    target: nat,
) -> (k: int)
    ensures
        0 <= k <= entries.len(),
        evicted(entries, incoming, target) == entries.skip(k),
        k == entries.len() || total_size(entries.skip(k)) + incoming <= target,
        forall|j: int| 0 <= j < k ==> total_size(#[trigger] entries.skip(j)) + incoming > target,
    decreases entries.len(),
{
    if entries.len() > 0 && total_size(entries) + incoming > target {
        let rest = entries.drop_first();
        let k = lemma_evicted_is_longest_fitting_suffix(rest, incoming, target);
        assert(rest.skip(k) =~= entries.skip(k + 1));
        assert forall|j: int| 0 <= j < k + 1 implies total_size(#[trigger] entries.skip(j))
            + incoming > target by {
            if j == 0 {
                assert(entries.skip(0) =~= entries);
            } else {
                assert(rest.skip(j - 1) =~= entries.skip(j));
            }
        }
        k + 1
    } else {
        assert(entries.skip(0) =~= entries);
        0
    }
}

/// A push keeps the keys distinct and the total within the target, a single
/// oversized entry excepted.
pub proof fn lemma_pushed_keeps_invariant<T: GetSize>(
    entries: Seq<(Seq<char>, T)>,
    target: nat,
    key: Seq<char>,
    value: T,
)
    requires
        distinct_keys(entries),
        bounded(entries, target),
    ensures
        distinct_keys(pushed(entries, target, key, value)),
        bounded(pushed(entries, target, key, value), target),
        lookup(pushed(entries, target, key, value), key) is Some,
{
    let after = pushed(entries, target, key, value);
    if lookup(entries, key) is None {
        let k = lemma_evicted_is_longest_fitting_suffix(entries, value.spec_size(), target);
        let kept = entries.skip(k);
        lemma_lookup(entries, key);
        lemma_total_size_push(kept, (key, value));
        assert forall|i: int, j: int| 0 <= i < j < after.len() implies after[i].0 != after[j].0 by {
            assert(after[i] == entries[i + k]);
            if j < kept.len() {
                assert(after[j] == entries[j + k]);
            }
        }
        if k == entries.len() {
            assert(kept.len() == 0);
        }
        lemma_lookup(after, key);
        assert(after[after.len() - 1].0 == key);
    }
}

/// A value that is pushed under a key that was not there is what a lookup
/// of the key then finds.
pub proof fn lemma_lookup_pushed<T: GetSize>(
    entries: Seq<(Seq<char>, T)>,
    target: nat,
    key: Seq<char>,
    value: T,
)
    requires
        lookup(entries, key) is None,
    ensures
        lookup(pushed(entries, target, key, value), key) == Some(value),
{
    let k = lemma_evicted_is_longest_fitting_suffix(entries, value.spec_size(), target);
    lemma_lookup(entries, key);
    lemma_lookup_last(entries.skip(k), key, value);
}

/// A lookup passes over entries with other keys.
proof fn lemma_lookup_last<T>(entries: Seq<(Seq<char>, T)>, key: Seq<char>, value: T)
    requires
        forall|i: int| 0 <= i < entries.len() ==> (#[trigger] entries[i]).0 != key,
    ensures
        lookup(entries.push((key, value)), key) == Some(value),
    decreases entries.len(),
{
    let grown = entries.push((key, value));
    if entries.len() > 0 {
        let rest = entries.drop_first();
        assert forall|i: int| 0 <= i < rest.len() implies (#[trigger] rest[i]).0 != key by {
            assert(rest[i] == entries[i + 1]);
        }
        lemma_lookup_last(rest, key, value);
        assert(grown[0] == entries[0]);
        assert(grown.drop_first() =~= rest.push((key, value)));
    } else {
        assert(grown[0] == (key, value));
    }
}

/// Starting from an empty cache, any run of pushes leaves the keys distinct
/// and the total within the target, a single oversized entry excepted.
pub proof fn lemma_pushed_all_keeps_invariant<T: GetSize>(target: nat, items: Seq<(Seq<char>, T)>)
    ensures
        distinct_keys(pushed_all(Seq::<(Seq<char>, T)>::empty(), target, items)),
        bounded(pushed_all(Seq::<(Seq<char>, T)>::empty(), target, items), target),
    decreases items.len(),
{
    if items.len() > 0 {
        lemma_pushed_all_keeps_invariant::<T>(target, items.drop_last());
        lemma_pushed_keeps_invariant(
            pushed_all(Seq::<(Seq<char>, T)>::empty(), target, items.drop_last()),
            target,
            items.last().0,
            items.last().1,
        );
    }
}

/// Pushing under one key twice is the same as pushing the first value alone:
/// the first writer wins, and the total does not grow a second time.
pub proof fn lemma_push_twice<T: GetSize>(
    entries: Seq<(Seq<char>, T)>,
    target: nat,
    key: Seq<char>,
    first: T,
    second: T,
)
    ensures
        pushed(pushed(entries, target, key, first), target, key, second) == pushed(
            entries,
            target,
            key,
            first,
        ),
{
    let once = pushed(entries, target, key, first);
    if lookup(entries, key) is None {
        lemma_lookup(once, key);
        assert(once[once.len() - 1].0 == key);
    }
}

/// A cache of values of type `T`, bounded by the sum of their byte
/// footprints.
pub struct Cache<T: GetSize> {
    buffer: VecDeque<(String, T)>,
    size: usize,
    target_size: usize,
}

impl<T: GetSize> View for Cache<T> {
    type V = Seq<(Seq<char>, T)>;

    /// The entries, oldest first, each as the path it is stored under and
    /// its value.
    closed spec fn view(&self) -> Seq<(Seq<char>, T)> {
        self.buffer@.map_values(|e: (String, T)| (e.0@, e.1))
    }
}

impl<T: GetSize> Cache<T> {
    #[verifier::type_invariant]
    spec fn inv(&self) -> bool {
        &&& self.size == total_size(self@)
        &&& distinct_keys(self@)
        &&& bounded(self@, self.target_size as nat)
    }

    /// The number of bytes that the cache aims to stay within.
    pub closed spec fn target(&self) -> nat {
        self.target_size as nat
    }

    /// Creates an empty cache that aims to stay within `target_size` bytes.
    pub fn new(target_size: usize) -> (cache: Self)
        ensures
            cache@ == Seq::<(Seq<char>, T)>::empty(),
            cache.target() == target_size,
    {
        let cache = Cache { buffer: VecDeque::new(), size: 0, target_size };
        assert(cache@ =~= Seq::<(Seq<char>, T)>::empty());
        cache
    }

    /// Returns the number of bytes held. It is the sum of the footprints of
    /// the entries, and it is within the target unless a single oversized
    /// entry is all there is.
    pub fn size(&self) -> (n: usize)
        ensures
            n == total_size(self@),
            bounded(self@, self.target()),
            distinct_keys(self@),
    {
        proof {
            use_type_invariant(self);
        }
        self.size
    }

    /// Empties the cache.
    pub fn clear(&mut self)
        ensures
            final(self)@ == Seq::<(Seq<char>, T)>::empty(),
            final(self).target() == old(self).target(),
    {
        let cleared = Cache { buffer: VecDeque::new(), size: 0, target_size: self.target_size };
        assert(cleared@ =~= Seq::<(Seq<char>, T)>::empty());
        *self = cleared;
    }

    /// Returns the value stored under `key`, if there is one.
    pub fn find(&self, key: &String) -> (found: Option<&T>)
        ensures
            found matches Some(value) ==> lookup(self@, key@) == Some(*value),
            found is None ==> lookup(self@, key@) is None,
    {
        let mut i: usize = 0;
        assert(self@.skip(0) =~= self@);
        while i < self.buffer.len()
            invariant
                i <= self.buffer@.len(),
                lookup(self@, key@) == lookup(self@.skip(i as int), key@),
            decreases self.buffer@.len() - i,
        {
            if self.buffer[i].0 == *key {
                assert(self@.skip(i as int)[0] == (key@, self.buffer@[i as int].1));
                return Some(&self.buffer[i].1);
            }
            assert(self@.skip(i as int)[0].0 != key@);
            assert(self@.skip(i as int).drop_first() =~= self@.skip(i as int + 1));
            i = i + 1;
        }
        assert(self@.skip(i as int).len() == 0);
        None
    }

    /// Stores `value` under `key`, unless the key is already there. The
    /// oldest entries are evicted first until the new one fits; if it never
    /// fits, it ends up alone.
    pub fn push(&mut self, key: String, value: T)
        ensures
            final(self)@ == pushed(old(self)@, old(self).target(), key@, value),
            final(self).target() == old(self).target(),
            lookup(final(self)@, key@) is Some,
            distinct_keys(final(self)@),
            bounded(final(self)@, final(self).target()),
    {
        proof {
            use_type_invariant(&*self);
            lemma_pushed_keeps_invariant(self@, self.target(), key@, value);
        }
        if self.find(&key).is_some() {
            return ;
        }
        let ghost entries = self@;
        let ghost target = self.target();
        let push_size = value.get_size();
        let mut taken = Cache { buffer: VecDeque::new(), size: 0, target_size: self.target_size };
        assert(taken@ =~= Seq::<(Seq<char>, T)>::empty());
        std::mem::swap(self, &mut taken);
        let Cache { buffer, size, target_size } = taken;
        let mut buffer = buffer;
        let mut size = size;
        let ghost model = |e: (String, T)| (e.0@, e.1);
        proof {
            lemma_lookup(entries, key@);
            assert(entries.skip(0) =~= entries);
        }
        let mut evictions: Ghost<int> = Ghost(0);
        while buffer.len() > 0 && (push_size > target_size || size > target_size - push_size)
            invariant
                model == |e: (String, T)| (e.0@, e.1),
                0 <= evictions@ <= entries.len(),
                buffer@.map_values(model) == entries.skip(evictions@),
                size == total_size(entries.skip(evictions@)),
                target_size == target,
                push_size == value.spec_size(),
                evicted(entries, push_size as nat, target) == evicted(
                    entries.skip(evictions@),
                    push_size as nat,
                    target,
                ),
            decreases buffer@.len(),
        {
            let ghost before = entries.skip(evictions@);
            let item = buffer.pop_front().unwrap();
            proof {
                lemma_total_size_drop_first(before);
                assert(before[0] == model(item));
                assert(before.drop_first() =~= entries.skip(evictions@ + 1));
                assert(buffer@.map_values(model) =~= entries.skip(evictions@ + 1));
                evictions@ = evictions@ + 1;
            }
            size = size - item.1.get_size();
        }
        let ghost kept = entries.skip(evictions@);
        proof {
            assert(evicted(kept, push_size as nat, target) == kept);
            lemma_total_size_push(kept, (key@, value));
            if buffer@.len() == 0 {
                assert(kept.len() == 0);
            }
        }
        buffer.push_back((key, value));
        assert(buffer@.map_values(model) =~= kept.push((key@, value)));
        size = size + push_size;
        *self = Cache { buffer, size, target_size };
    }
}

} // verus!
