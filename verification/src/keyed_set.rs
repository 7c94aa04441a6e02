//! A generic keyed arena.
//!
//! A [`KeyedSet<T>`] owns a collection of values and hands out a fresh
//! [`Key<T>`] for every inserted value.  Keys are allocated from a counter
//! that only ever grows, so a key that has been removed is retired forever:
//! no later insertion can make a lookup with the old key succeed again.
//!
//! The abstract state of a set is the map from key identifiers to stored
//! values, available in specifications as `self@`, together with the
//! allocation counter `self.next_id()`.

use vstd::prelude::*;

verus! {

/// A stable identifier for a value stored in a [`KeyedSet<T>`].
///
/// A key is opaque and typed: a `Key<T>` only identifies a value inside an
/// arena holding `T`s.  Its abstract view `key@` is the numeric identifier
/// the arena assigned to it.
#[derive(Debug)]
pub struct Key<T> {
    value: u64,
    marker: core::marker::PhantomData<T>,
}

impl<T> View for Key<T> {
    type V = u64;

    closed spec fn view(&self) -> u64 {
        self.value
    }
}

impl<T> Key<T> {
    /// The numeric identifier behind this key.
    pub fn id(&self) -> (r: u64)
        ensures
            r == self@,
    {
        self.value
    }
}

/// Two keys carrying the same identifier are the same key.
pub proof fn lemma_key_view_injective<T>(a: Key<T>, b: Key<T>)
    requires
        a@ == b@,
    ensures
        a == b,
{
}

impl<T> Clone for Key<T> {
    fn clone(&self) -> (r: Self)
        ensures
            r == *self,
    {
        Key { value: self.value, marker: core::marker::PhantomData }
    }
}

impl<T> Copy for Key<T> {}

impl<T> PartialEq for Key<T> {
    fn eq(&self, other: &Self) -> (r: bool)
        ensures
            r <==> self@ == other@,
    {
        self.value == other.value
    }
}

impl<T> Eq for Key<T> {}

impl<T> vstd::std_specs::cmp::PartialEqSpecImpl for Key<T> {
    open spec fn obeys_eq_spec() -> bool {
        true
    }

    open spec fn eq_spec(&self, other: &Self) -> bool {
        self@ == other@
    }
}

/// An arena of values of type `T`, addressed by stable keys.
///
/// Entries are kept in ascending key order, and every stored key is below
/// the allocation counter `next`; both facts make up the well-formedness
/// predicate [`KeyedSet::wf`], which every constructor establishes and every
/// operation preserves.
pub struct KeyedSet<T> {
    entries: Vec<(Key<T>, T)>,
    next: u64,
}

/// The map described by a sequence of key/value entries, later entries
/// winning (entries of a well-formed set have distinct keys, so order does
/// not matter there).
spec fn entries_map<T>(s: Seq<(Key<T>, T)>) -> Map<u64, T>
    decreases s.len(),
{
    if s.len() == 0 {
        Map::empty()
    } else {
        entries_map(s.drop_last()).insert(s.last().0@, s.last().1)
    }
}

/// Entry sequences with pairwise distinct keys describe exactly the map of
/// their entries.
proof fn lemma_entries_map<T>(s: Seq<(Key<T>, T)>)
    requires
        forall|i: int, j: int| 0 <= i < j < s.len() ==> s[i].0@ != s[j].0@,
    ensures
        forall|k: u64|
            #[trigger] entries_map(s).contains_key(k) <==> exists|i: int|
                0 <= i < s.len() && s[i].0@ == k,
        forall|i: int|
            0 <= i < s.len() ==> entries_map(s).contains_key(#[trigger] s[i].0@)
                && entries_map(s)[s[i].0@] == s[i].1,
        entries_map(s).dom().finite(),
        entries_map(s).dom().len() == s.len(),
    decreases s.len(),
{
    if s.len() > 0 {
        lemma_entries_map(s.drop_last());
        assert forall|i: int|
            0 <= i < s.len() implies entries_map(s).contains_key(#[trigger] s[i].0@)
            && entries_map(s)[s[i].0@] == s[i].1 by {
            if i < s.len() - 1 {
                assert(s.drop_last()[i] == s[i]);
                assert(s[i].0@ != s.last().0@);
            }
        }
        assert forall|k: u64| #[trigger] entries_map(s).contains_key(k) implies exists|i: int|
            0 <= i < s.len() && s[i].0@ == k by {
            if k == s.last().0@ {
                assert(s[s.len() - 1].0@ == k);
            } else {
                let i = choose|i: int| 0 <= i < s.drop_last().len() && s.drop_last()[i].0@ == k;
                assert(s[i].0@ == k);
            }
        }
        assert(!entries_map(s.drop_last()).contains_key(s.last().0@));
    }
}

impl<T> View for KeyedSet<T> {
    type V = Map<u64, T>;

    closed spec fn view(&self) -> Map<u64, T> {
        entries_map(self.entries@)
    }
}

impl<T> KeyedSet<T> {
    /// The next identifier this set will hand out.  It only ever grows.
    pub closed spec fn next_id(&self) -> u64 {
        self.next
    }

    /// Well-formedness: entries are in strictly ascending key order and
    /// every stored key is below the allocation counter.
    pub closed spec fn wf(&self) -> bool {
        &&& forall|i: int, j: int|
            0 <= i < j < self.entries@.len() ==> self.entries@[i].0@ < self.entries@[j].0@
        &&& forall|i: int| 0 <= i < self.entries@.len() ==> #[trigger] self.entries@[i].0@ < self.next
    }

    /// Every key a well-formed set holds is below its allocation counter.
    pub proof fn lemma_keys_below_next(&self)
        requires
            self.wf(),
        ensures
            forall|k: u64| #[trigger] self@.contains_key(k) ==> k < self.next_id(),
    {
        lemma_entries_map(self.entries@);
    }

    /// The abstract map of a well-formed arena has a finite domain, with as
    /// many keys as there are stored entries.
    pub proof fn lemma_view_finite(&self)
        requires
            self.wf(),
        ensures
            self@.dom().finite(),
    {
        lemma_entries_map(self.entries@);
    }

    /// Creates an empty arena.
    pub fn new() -> (r: Self)
        ensures
            r.wf(),
            r@ == Map::<u64, T>::empty(),
            r.next_id() == 0,
    {
        KeyedSet { entries: Vec::new(), next: 0 }
    }

    /// Stores `value` and returns a fresh key for it.
    ///
    /// The returned key was never in use before (its identifier equals the
    /// old allocation counter, which every previously issued key is below).
    pub fn insert(&mut self, value: T) -> (key: Key<T>)
        requires
            old(self).wf(),
            old(self).next_id() < u64::MAX,
        ensures
            final(self).wf(),
            key@ == old(self).next_id(),
            !old(self)@.contains_key(key@),
            final(self)@ == old(self)@.insert(key@, value),
            final(self).next_id() == old(self).next_id() + 1,
    {
        proof {
            lemma_entries_map(self.entries@);
        }
        let key = Key { value: self.next, marker: core::marker::PhantomData };
        self.next = self.next + 1;
        self.entries.push((key, value));
        proof {
            assert(self.entries@.drop_last() =~= old(self).entries@);
        }
        key
    }

    /// Finds the position of `key` in the entry vector, if present.
    fn find(&self, key: &Key<T>) -> (r: Option<usize>)
        requires
            self.wf(),
        ensures
            match r {
                Some(i) => i < self.entries@.len() && self.entries@[i as int].0@ == key@,
                None => forall|i: int| 0 <= i < self.entries@.len() ==> self.entries@[i].0@ != key@,
            },
    {
        let n = self.entries.len();
        for i in 0..n
            invariant
                n == self.entries@.len(),
                forall|j: int| 0 <= j < i ==> self.entries@[j].0@ != key@,
        {
            if self.entries[i].0.value == key.value {
                return Some(i);
            }
        }
        None
    }

    /// Returns the value stored under `key`, or nothing if the key was
    /// removed or never issued.
    pub fn get(&self, key: Key<T>) -> (r: Option<&T>)
        requires
            self.wf(),
        ensures
            match r {
                Some(v) => self@.contains_key(key@) && *v == self@[key@],
                None => !self@.contains_key(key@),
            },
    {
        proof {
            lemma_entries_map(self.entries@);
        }
        match self.find(&key) {
            Some(i) => Some(&self.entries[i].1),
            None => None,
        }
    }

    /// Returns a mutable reference to the value stored under `key`, or
    /// nothing if the key was removed or never issued.
    pub fn get_mut(&mut self, key: Key<T>) -> (r: Option<&mut T>)
        requires
            old(self).wf(),
        ensures
            match r {
                Some(v) => old(self)@.contains_key(key@) && *v == old(self)@[key@]
                    && final(self)@ == old(self)@.insert(key@, *final(v)) && final(self).wf()
                    && final(self).next_id() == old(self).next_id(),
                None => !old(self)@.contains_key(key@) && *final(self) == *old(self),
            },
    {
        proof {
            lemma_entries_map(self.entries@);
        }
        match self.find(&key) {
            Some(i) => {
                let r = &mut self.entries[i].1;
                proof {
                    lemma_entries_map_update(old(self).entries@, i as int, *final(r));
                }
                Some(r)
            },
            None => None,
        }
    }

    /// Detaches and returns the value stored under `key`; the key is
    /// retired permanently.  Removing an absent key changes nothing and
    /// returns nothing, so removal is idempotent.
    pub fn remove(&mut self, key: Key<T>) -> (r: Option<T>)
        requires
            old(self).wf(),
        ensures
            final(self).wf(),
            final(self).next_id() == old(self).next_id(),
            match r {
                Some(v) => old(self)@.contains_key(key@) && v == old(self)@[key@]
                    && final(self)@ == old(self)@.remove(key@),
                None => !old(self)@.contains_key(key@) && *final(self) == *old(self),
            },
    {
        proof {
            lemma_entries_map(self.entries@);
        }
        match self.find(&key) {
            Some(i) => {
                let (_, v) = self.entries.remove(i);
                proof {
                    lemma_entries_map_remove(old(self).entries@, i as int);
                }
                Some(v)
            },
            None => None,
        }
    }

    /// Read-only access to all live entries, in ascending key order.
    ///
    /// The returned vector holds exactly the entries of `self@`.
    pub fn iter(&self) -> (r: &Vec<(Key<T>, T)>)
        requires
            self.wf(),
        ensures
            r@.len() == self@.dom().len(),
            forall|i: int|
                0 <= i < r@.len() ==> self@.contains_key(#[trigger] r@[i].0@)
                    && self@[r@[i].0@] == r@[i].1,
            forall|i: int, j: int| 0 <= i < j < r@.len() ==> r@[i].0@ < r@[j].0@,
            forall|k: u64|
                #[trigger] self@.contains_key(k) ==> exists|i: int|
                    0 <= i < r@.len() && r@[i].0@ == k,
    {
        proof {
            lemma_entries_map(self.entries@);
        }
        &self.entries
    }

    /// The number of live entries.
    pub fn len(&self) -> (n: usize)
        requires
            self.wf(),
        ensures
            n == self@.dom().len(),
    {
        proof {
            lemma_entries_map(self.entries@);
        }
        self.entries.len()
    }
}

/// Updating one entry's value updates exactly that key in the entry map.
proof fn lemma_entries_map_update<T>(s: Seq<(Key<T>, T)>, i: int, v: T)
    requires
        forall|p: int, q: int| 0 <= p < q < s.len() ==> s[p].0@ != s[q].0@,
        0 <= i < s.len(),
    ensures
        entries_map(s.update(i, (s[i].0, v))) == entries_map(s).insert(s[i].0@, v),
    decreases s.len(),
{
    lemma_entries_map(s);
    let s2 = s.update(i, (s[i].0, v));
    if i == s.len() - 1 {
        assert(s2.drop_last() =~= s.drop_last());
        assert(entries_map(s2) =~= entries_map(s).insert(s[i].0@, v));
    } else {
        assert(s2.drop_last() =~= s.drop_last().update(i, (s[i].0, v)));
        lemma_entries_map_update(s.drop_last(), i, v);
        assert(s2.last() == s.last());
        assert(entries_map(s2) =~= entries_map(s).insert(s[i].0@, v));
    }
}

/// Removing one entry removes exactly that key from the entry map.
proof fn lemma_entries_map_remove<T>(s: Seq<(Key<T>, T)>, i: int)
    requires
        forall|p: int, q: int| 0 <= p < q < s.len() ==> s[p].0@ != s[q].0@,
        0 <= i < s.len(),
    ensures
        entries_map(s.remove(i)) == entries_map(s).remove(s[i].0@),
    decreases s.len(),
{
    lemma_entries_map(s);
    let s2 = s.remove(i);
    if i == s.len() - 1 {
        assert(s2 =~= s.drop_last());
        assert(!entries_map(s.drop_last()).contains_key(s[i].0@)) by {
            lemma_entries_map(s.drop_last());
        }
        assert(entries_map(s2) =~= entries_map(s).remove(s[i].0@));
    } else {
        assert(s2.drop_last() =~= s.drop_last().remove(i));
        lemma_entries_map_remove(s.drop_last(), i);
        assert(s2.last() == s.last());
        assert(entries_map(s2) =~= entries_map(s).remove(s[i].0@));
    }
}

/// One arena state can evolve into another when the allocation counter has
/// not gone backwards and every key that is live in the later state was
/// either already live or had not been issued yet.  Every operation of
/// [`KeyedSet`] relates its pre- and post-state this way.
pub open spec fn evolves<T>(pre: KeyedSet<T>, post: KeyedSet<T>) -> bool {
    &&& pre.next_id() <= post.next_id()
    &&& forall|k: u64|
        #[trigger] post@.contains_key(k) && k < pre.next_id() ==> pre@.contains_key(k)
}

/// Law: a key that has been removed is retired forever.
///
/// If `k` was issued before (it is below the allocation counter) and is
/// absent, then it is still absent in any state the arena can evolve into —
/// in particular after any further sequence of `insert`, `get_mut` and
/// `remove` calls, since each of them relates its pre- and post-state by
/// [`evolves`].
pub proof fn lemma_retired_key_stays_absent<T>(pre: KeyedSet<T>, post: KeyedSet<T>, k: u64)
    requires
        evolves(pre, post),
        !pre@.contains_key(k),
        k < pre.next_id(),
    ensures
        !post@.contains_key(k),
{
}

/// [`evolves`] is transitive, so it extends over whole operation sequences.
pub proof fn lemma_evolves_trans<T>(a: KeyedSet<T>, b: KeyedSet<T>, c: KeyedSet<T>)
    requires
        evolves(a, b),
        evolves(b, c),
    ensures
        evolves(a, c),
{
}

/// `insert`'s contract implies [`evolves`].
pub proof fn lemma_insert_evolves<T>(pre: KeyedSet<T>, post: KeyedSet<T>, v: T)
    requires
        post@ == pre@.insert(pre.next_id(), v),
        post.next_id() == pre.next_id() + 1,
    ensures
        evolves(pre, post),
{
}

/// `remove`'s contract implies [`evolves`].
pub proof fn lemma_remove_evolves<T>(pre: KeyedSet<T>, post: KeyedSet<T>, k: u64)
    requires
        post@ == pre@.remove(k) || post@ == pre@,
        post.next_id() == pre.next_id(),
    ensures
        evolves(pre, post),
{
}

/// `get_mut`'s contract implies [`evolves`].
pub proof fn lemma_update_evolves<T>(pre: KeyedSet<T>, post: KeyedSet<T>, k: u64, v: T)
    requires
        pre@.contains_key(k),
        post@ == pre@.insert(k, v),
        post.next_id() == pre.next_id(),
    ensures
        evolves(pre, post),
{
}

/// Law: removal is idempotent.  After removing `k` once, `k` is absent, so
/// a second `remove(k)` takes the `None` branch of its contract: it returns
/// nothing and leaves the arena unchanged.
pub proof fn lemma_remove_idempotent<T>(m: Map<u64, T>, k: u64)
    ensures
        !m.remove(k).contains_key(k),
{
}

} // verus!
