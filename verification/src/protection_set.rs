use vstd::prelude::*;

verus! {

/// An entry of the protection set: either an object that is protected, or a
/// free slot that links to the next free slot.
pub enum Entry<T> {
    Filled(T),
    Free(usize),
}

/// The number of slots that hold a protected object.
pub open spec fn filled_count<T>(s: Seq<Entry<T>>) -> nat
    decreases s.len(),
{
    if s.len() == 0 {
        0
    } else {
        filled_count(s.drop_last()) + if s.last() is Filled {
            1nat
        } else {
            0nat
        }
    }
}

/// Changing one slot from free to filled, or back, changes the count by one.
proof fn lemma_filled_update<T>(s: Seq<Entry<T>>, i: int, e: Entry<T>)
    requires
        0 <= i < s.len(),
    ensures
        filled_count(s.update(i, e)) + (if s[i] is Filled {
            1nat
        } else {
            0nat
        }) == filled_count(s) + (if e is Filled {
            1nat
        } else {
            0nat
        }),
    decreases s.len(),
{
    let t = s.update(i, e);
    if i < s.len() - 1 {
        assert(t.drop_last() =~= s.drop_last().update(i, e));
        lemma_filled_update(s.drop_last(), i, e);
        assert(t.last() == s.last());
    } else {
        assert(t.drop_last() =~= s.drop_last());
    }
}

/// At most every slot is filled; with a free slot fewer are; with none, all are.
proof fn lemma_filled_bound<T>(s: Seq<Entry<T>>)
    ensures
        filled_count(s) <= s.len(),
        (exists|i: int| 0 <= i < s.len() && s[i] is Free) ==> filled_count(s) < s.len(),
        (forall|i: int| 0 <= i < s.len() ==> s[i] is Filled) ==> filled_count(s) == s.len(),
    decreases s.len(),
{
    if s.len() > 0 {
        let r = s.drop_last();
        lemma_filled_bound(r);
        if exists|i: int| 0 <= i < s.len() && s[i] is Free {
            let i = choose|i: int| 0 <= i < s.len() && s[i] is Free;
            if i < s.len() - 1 {
                assert(r[i] == s[i]);
            }
        }
        if forall|i: int| 0 <= i < s.len() ==> s[i] is Filled {
            assert forall|i: int| 0 <= i < r.len() implies r[i] is Filled by {
                assert(r[i] == s[i]);
            }
        }
    }
}

/// The protection set keeps track of nodes that should not be garbage
/// collected since they are being referenced by instances.
///
/// Free slots form a linked list through their `Free` entries; the last slot
/// of that list points to itself.
pub struct ProtectionSet<T> {
    roots: Vec<Entry<T>>,
    free: Option<usize>,
    number_of_insertions: u64,
    /// The free list in order, starting at `free`.
    free_list: Ghost<Seq<usize>>,
}

impl<T> ProtectionSet<T> {
    /// The protected objects, by the index that `protect` returned for them.
    pub closed spec fn view(&self) -> Map<usize, T> {
        Map::new(
            |i: usize| i < self.roots@.len() && self.roots@[i as int] is Filled,
            |i: usize| self.roots@[i as int]->Filled_0,
        )
    }

    /// The index that the next call of `protect` hands out.
    pub closed spec fn next_index(&self) -> usize {
        match self.free {
            Some(first) => first,
            None => self.roots@.len() as usize,
        }
    }

    /// The number of objects that are protected.
    pub closed spec fn count(&self) -> nat {
        filled_count(self.roots@)
    }

    /// Whether a freed slot waits to be handed out again.
    pub closed spec fn has_free(&self) -> bool {
        self.free is Some
    }

    /// The number of insertions recorded so far.
    pub closed spec fn insertions(&self) -> u64 {
        self.number_of_insertions
    }

    /// The number of slots in use or free.
    pub closed spec fn slots(&self) -> nat {
        self.roots@.len()
    }

    /// Well-formedness: the free list is a chain of distinct free slots that
    /// ends in a slot pointing to itself, and it holds every free slot.
    pub closed spec fn wf(&self) -> bool {
        let fl = self.free_list@;
        &&& self.roots@.len() < usize::MAX
        &&& forall|k: int| 0 <= k < fl.len() ==> (#[trigger] fl[k]) < self.roots@.len()
        &&& forall|k: int, l: int| 0 <= k < l < fl.len() ==> fl[k] != fl[l]
        &&& forall|k: int|
            0 <= k < fl.len() ==> (#[trigger] self.roots@[fl[k] as int]) == Entry::<T>::Free(
                if k + 1 < fl.len() { fl[k + 1] } else { fl[k] },
            )
        &&& forall|i: int|
            0 <= i < self.roots@.len() && (#[trigger] self.roots@[i]) is Free ==> fl.contains(
                i as usize,
            )
        &&& match self.free {
            Some(first) => fl.len() > 0 && fl[0] == first,
            None => fl.len() == 0,
        }
    }

    /// Creates an empty protection set.
    pub fn new() -> (result: Self)
        ensures
            result.wf(),
            result@ == Map::<usize, T>::empty(),
            result.insertions() == 0,
            result.next_index() == 0,
            result.slots() == 0,
            !result.has_free(),
            result.count() == 0,
    {
        let result = ProtectionSet {
            roots: Vec::new(),
            free: None,
            number_of_insertions: 0,
            free_list: Ghost(Seq::empty()),
        };
        assert(result@ =~= Map::<usize, T>::empty());
        result
    }

    /// Returns the number of insertions into the protection set.
    pub fn number_of_insertions(&self) -> (result: u64)
        ensures
            result == self.insertions(),
    {
        self.number_of_insertions
    }

    /// Returns maximum number of active instances: the number of slots, as
    /// a slot is only added when every slot holds a protected object (see
    /// [ProtectionSet::protect]: the number of slots is the largest number of
    /// objects protected at the same time so far).
    pub fn maximum_size(&self) -> (result: usize)
        ensures
            result == self.slots(),
    {
        self.roots.len()
    }

    /// Returns whether the given index currently holds a protected object.
    pub fn is_protected(&self, index: usize) -> (result: bool)
        ensures
            result == self@.contains_key(index),
    {
        if index < self.roots.len() {
            match &self.roots[index] {
                Entry::Filled(_) => true,
                Entry::Free(_) => false,
            }
        } else {
            false
        }
    }

    /// Returns an iterator over all protected objects in the protection set.
    pub fn iter(&self) -> (result: ProtSetIter<'_, T>)
        ensures
            result.position() == 0,
            result.set() == *self,
    {
        ProtSetIter { current: 0, protection_set: self }
    }

    /// Protect the given root node to prevent garbage collection. Returns the
    /// index under which the object is stored.
    pub fn protect(&mut self, object: T) -> (index: usize)
        requires
            old(self).wf(),
            old(self).insertions() < u64::MAX,
            old(self).slots() + 1 < usize::MAX,
        ensures
            final(self).wf(),
            index == old(self).next_index(),
            !old(self)@.contains_key(index),
            final(self)@ == old(self)@.insert(index, object),
            final(self).insertions() == old(self).insertions() + 1,
            index <= old(self).slots(),
            index < final(self).slots(),
            index == old(self).slots() <==> !old(self).has_free(),
            final(self).slots() == (if old(self).has_free() {
                old(self).slots()
            } else {
                old(self).slots() + 1
            }),
            !old(self).has_free() ==> !final(self).has_free(),
            final(self).count() == old(self).count() + 1,
            final(self).slots() == (if old(self).slots() < final(self).count() {
                final(self).count()
            } else {
                old(self).slots()
            }),
    {
        self.number_of_insertions = self.number_of_insertions + 1;
        let ghost old_roots = self.roots@;
        let ghost obj = object;
        let ghost fl = self.free_list@;
        match self.free {
            Some(first) => {
                let next = match &self.roots[first] {
                    Entry::Free(next) => *next,
                    Entry::Filled(_) => {
                        proof {
                            assert(self.roots@[fl[0] as int] is Free);
                        }
                        first
                    },
                };
                if first == next {
                    // The list is empty as its first element points to itself.
                    self.free = None;
                    proof {
                        if fl.len() > 1 {
                            assert(fl[0] != fl[1]);
                        }
                        self.free_list = Ghost(Seq::empty());
                    }
                } else {
                    // Update free to be the next element in the list.
                    self.free = Some(next);
                    proof {
                        self.free_list = Ghost(fl.drop_first());
                    }
                }
                self.roots.set(first, Entry::Filled(object));
                proof {
                    assert(old_roots[first as int] is Free);
                    assert(self.roots@ == old_roots.update(first as int, Entry::Filled(obj)));
                    lemma_filled_update(old_roots, first as int, Entry::Filled(obj));
                    lemma_filled_bound(old_roots);
                    let nfl = self.free_list@;
                    assert forall|k: int| 0 <= k < nfl.len() implies (#[trigger] self.roots@[nfl[k] as int])
                        == Entry::<T>::Free(if k + 1 < nfl.len() { nfl[k + 1] } else { nfl[k] }) by {
                        assert(nfl[k] == fl[k + 1]);
                        assert(fl[k + 1] != fl[0]);
                    }
                    assert forall|i: int|
                        0 <= i < self.roots@.len() && (#[trigger] self.roots@[i]) is Free implies nfl.contains(
                        i as usize,
                    ) by {
                        assert(i != first);
                        assert(old_roots[i] is Free);
                        assert(fl.contains(i as usize));
                        let k = choose|k: int| 0 <= k < fl.len() && fl[k] == i as usize;
                        assert(k != 0);
                        assert(nfl[k - 1] == i as usize);
                    }
                    assert(self@ =~= old(self)@.insert(first, object));
                }
                first
            },
            None => {
                // If free list is empty insert new entry into roots.
                self.roots.push(Entry::Filled(object));
                proof {
                    assert(self.roots@.drop_last() =~= old_roots);
                    assert forall|i: int| 0 <= i < old_roots.len() implies old_roots[i] is Filled by {
                        if old_roots[i] is Free {
                            assert(fl.contains(i as usize));
                        }
                    }
                    lemma_filled_bound(old_roots);
                    assert forall|i: int|
                        0 <= i < self.roots@.len() && (#[trigger] self.roots@[i]) is Free implies fl.contains(
                        i as usize,
                    ) by {
                        assert(old_roots[i] is Free);
                    }
                    assert(self@ =~= old(self)@.insert((self.roots@.len() - 1) as usize, object));
                }
                self.roots.len() - 1
            },
        }
    }

    /// Remove protection from the given node. Note that index must be the
    /// index returned by the [protect] call.
    pub fn unprotect(&mut self, index: usize)
        requires
            old(self).wf(),
            old(self)@.contains_key(index),
        ensures
            final(self).wf(),
            final(self)@ == old(self)@.remove(index),
            final(self).next_index() == index,
            final(self).has_free(),
            final(self).count() + 1 == old(self).count(),
            final(self).insertions() == old(self).insertions(),
            final(self).slots() == old(self).slots(),
    {
        let ghost fl = self.free_list@;
        let ghost old_roots = self.roots@;
        proof {
            if fl.contains(index) {
                let k = choose|k: int| 0 <= k < fl.len() && fl[k] == index;
                assert(self.roots@[fl[k] as int] is Free);
            }
        }
        match self.free {
            Some(next) => {
                self.roots.set(index, Entry::Free(next));
                proof {
                    lemma_filled_update(old_roots, index as int, Entry::<T>::Free(next));
                }
            },
            None => {
                self.roots.set(index, Entry::Free(index));
                proof {
                    lemma_filled_update(old_roots, index as int, Entry::<T>::Free(index));
                }
            },
        };
        self.free = Some(index);
        proof {
            let nfl = seq![index].add(fl);
            self.free_list = Ghost(nfl);
            assert forall|k: int| 0 <= k < nfl.len() implies (#[trigger] self.roots@[nfl[k] as int])
                == Entry::<T>::Free(if k + 1 < nfl.len() { nfl[k + 1] } else { nfl[k] }) by {
                if k > 0 {
                    assert(nfl[k] == fl[k - 1]);
                    assert(fl[k - 1] != index);
                }
            }
            assert forall|k: int, l: int| 0 <= k < l < nfl.len() implies nfl[k] != nfl[l] by {
                if k == 0 {
                    assert(nfl[l] == fl[l - 1]);
                    assert(fl.contains(fl[l - 1]));
                }
            }
            assert forall|i: int|
                0 <= i < self.roots@.len() && (#[trigger] self.roots@[i]) is Free implies nfl.contains(
                i as usize,
            ) by {
                if i != index {
                    assert(old_roots[i] is Free);
                    let k = choose|k: int| 0 <= k < fl.len() && fl[k] == i as usize;
                    assert(nfl[k + 1] == i as usize);
                } else {
                    assert(nfl[0] == index);
                }
            }
            assert(self@ =~= old(self)@.remove(index));
        }
    }
}

/// Protecting an object and unprotecting the index that `protect` returned
/// gives back the protected objects from before.
pub proof fn lemma_protect_unprotect<T>(before: Map<usize, T>, index: usize, object: T)
    requires
        !before.contains_key(index),
    ensures
        before.insert(index, object).remove(index) == before,
{
    assert(before.insert(index, object).remove(index) =~= before);
}

/// Unprotecting an index and protecting an object again hands out the same
/// index: the other protected objects stay and the index holds the new object.
pub proof fn lemma_unprotect_protect<T>(
    before: ProtectionSet<T>,
    between: ProtectionSet<T>,
    after: ProtectionSet<T>,
    index: usize,
    second: usize,
    object: T,
)
    requires
        before.wf(),
        before@.contains_key(index),
        between@ == before@.remove(index),
        between.next_index() == index,
        second == between.next_index(),
        after@ == between@.insert(second, object),
    ensures
        second == index,
        after@ == before@.insert(index, object),
{
    assert(after@ =~= before@.insert(index, object));
}

/// Without a freed slot every slot holds a protected object, so the number
/// of slots is the number of protected objects; with one, the next index is a
/// slot that holds none. Indices are below the number of slots.
pub proof fn lemma_slots_dense<T>(s: ProtectionSet<T>)
    requires
        s.wf(),
    ensures
        !s.has_free() ==> forall|i: usize| i < s.slots() ==> #[trigger] s@.contains_key(i),
        s.has_free() ==> s.next_index() < s.slots() && !s@.contains_key(s.next_index()),
        forall|i: usize| #[trigger] s@.contains_key(i) ==> i < s.slots(),
{
    if s.has_free() {
        assert(s.roots@[s.free_list@[0] as int] is Free);
    } else {
        assert forall|i: usize| i < s.slots() implies #[trigger] s@.contains_key(i) by {
            if s.roots@[i as int] is Free {
                assert(s.free_list@.contains(i));
            }
        }
    }
}

/// An iterator over the protected objects of a protection set, in index
/// order.
pub struct ProtSetIter<'a, T> {
    current: usize,
    protection_set: &'a ProtectionSet<T>,
}

impl<'a, T> ProtSetIter<'a, T> {
    /// The slot index from which the iterator continues.
    pub closed spec fn position(&self) -> usize {
        self.current
    }

    /// The protection set that is iterated over.
    pub closed spec fn set(&self) -> ProtectionSet<T> {
        *self.protection_set
    }

    /// Returns the next protected object at or after the current slot, or
    /// `None` when no protected object remains.
    pub fn next(&mut self) -> (result: Option<&'a T>)
        ensures
            final(self).set() == old(self).set(),
            match result {
                Some(object) => {
                    let i = (final(self).position() - 1) as usize;
                    &&& final(self).position() >= 1
                    &&& old(self).position() <= i
                    &&& old(self).set()@.contains_key(i)
                    &&& old(self).set()@[i] == *object
                    &&& forall|j: usize|
                        old(self).position() <= j < i ==> !old(self).set()@.contains_key(j)
                },
                None => forall|j: usize|
                    old(self).position() <= j ==> !old(self).set()@.contains_key(j),
            },
    {
        let len = self.protection_set.roots.len();
        while self.current < len
            invariant
                self.protection_set == old(self).protection_set,
                len == self.protection_set.roots@.len(),
                old(self).position() <= self.current,
                forall|j: usize|
                    old(self).position() <= j < self.current ==> !old(self).set()@.contains_key(j),
            decreases len - self.current,
        {
            let i = self.current;
            self.current = self.current + 1;
            if let Entry::Filled(object) = &self.protection_set.roots[i] {
                return Some(object);
            }
        }
        None
    }
}

} // verus!
