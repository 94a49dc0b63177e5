//! The operand-list pool: ordered lists kept end to end in one vector and
//! named by lightweight handles.
//!
//! Handles are plain ranges, so two of them may name the same storage. A
//! write through one is then seen through the other. Whoever wants to edit a
//! list it may share first takes a private copy with
//! [`ListPool::deep_clone`] and edits that.

use vstd::prelude::*;

verus! {

/// The handle of a list in a pool: where it starts and how long it is.
/// The default handle names the empty list, in every pool.
#[derive(Clone, Copy, Debug, PartialEq, Eq, Structural, Hash)]
pub struct ListRef {
    pub start: usize,
    pub len: usize,
}

impl ListRef {
    /// The position just past the last item.
    pub open spec fn end(self) -> int {
        self.start + self.len
    }

    /// Whether no position belongs to both lists, so that a write through
    /// one handle cannot be seen through the other.
    pub open spec fn disjoint(self, other: ListRef) -> bool {
        self.end() <= other.start || other.end() <= self.start
    }

    /// The number of items of this list.
    pub fn len(&self) -> (n: usize)
        ensures
            n == self.len,
    {
        self.len
    }

    /// Whether this list has no items.
    pub fn is_empty(&self) -> (r: bool)
        ensures
            r == (self.len == 0),
    {
        self.len == 0
    }
}

impl Default for ListRef {
    fn default() -> (r: ListRef)
        ensures
            r == (ListRef { start: 0, len: 0 }),
    {
        ListRef { start: 0, len: 0 }
    }
}

/// Storage for lists of `T`. The view is the whole storage; the items of a
/// list are the part of it that the list's handle names.
#[derive(Debug, PartialEq, Eq)]
pub struct ListPool<T> {
    pub storage: Vec<T>,
}

impl<T: Copy> Clone for ListPool<T> {
    /// A pool with the same storage: every handle names the same items in
    /// it.
    fn clone(&self) -> (r: Self)
        ensures
            r@ == self@,
    {
        let mut storage: Vec<T> = Vec::new();
        let n = self.storage.len();
        let mut i: usize = 0;
        while i < n
            invariant
                i <= n,
                n == self@.len(),
                storage@ == self@.subrange(0, i as int),
            decreases n - i,
        {
            storage.push(self.storage[i]);
            assert(self@.subrange(0, i + 1) == self@.subrange(0, i as int).push(self@[i as int]));
            i += 1;
        }
        assert(self@.subrange(0, n as int) == self@);
        ListPool { storage }
    }
}

impl<T> View for ListPool<T> {
    type V = Seq<T>;

    open spec fn view(&self) -> Seq<T> {
        self.storage@
    }
}

/// Whether `list` lies within `storage`.
pub open spec fn list_in<T>(storage: Seq<T>, list: ListRef) -> bool {
    list.end() <= storage.len()
}

/// The items of `list` in `storage`.
pub open spec fn list_items<T>(storage: Seq<T>, list: ListRef) -> Seq<T> {
    storage.subrange(list.start as int, list.end())
}

impl<T: Copy> ListPool<T> {
    /// Whether `list` lies within this pool.
    pub open spec fn has(&self, list: ListRef) -> bool {
        list_in(self@, list)
    }

    /// The items of `list`.
    pub open spec fn items(&self, list: ListRef) -> Seq<T> {
        list_items(self@, list)
    }

    /// A pool without storage.
    pub fn new() -> (p: Self)
        ensures
            p@ == Seq::<T>::empty(),
    {
        ListPool { storage: Vec::new() }
    }

    /// Stores the list `[x]` at the end of the pool.
    pub fn single(&mut self, x: T) -> (r: ListRef)
        ensures
            final(self)@ == old(self)@.push(x),
            r.start == old(self)@.len(),
            r.len == 1,
    {
        let start = self.storage.len();
        self.storage.push(x);
        ListRef { start, len: 1 }
    }

    /// Stores the list `[x, y]` at the end of the pool.
    pub fn double(&mut self, x: T, y: T) -> (r: ListRef)
        ensures
            final(self)@ == old(self)@.push(x).push(y),
            r.start == old(self)@.len(),
            r.len == 2,
    {
        let start = self.storage.len();
        self.storage.push(x);
        self.storage.push(y);
        ListRef { start, len: 2 }
    }

    /// Stores a copy of `items` at the end of the pool.
    pub fn from_slice(&mut self, items: &[T]) -> (r: ListRef)
        ensures
            final(self)@ == old(self)@ + items@,
            r.start == old(self)@.len(),
            r.len == items@.len(),
    {
        let start = self.storage.len();
        let n = items.len();
        let mut i: usize = 0;
        while i < n
            invariant
                i <= n,
                n == items@.len(),
                start == old(self)@.len(),
                self@ == old(self)@ + items@.subrange(0, i as int),
            decreases n - i,
        {
            self.storage.push(items[i]);
            assert(items@.subrange(0, i + 1) == items@.subrange(0, i as int).push(items@[i as int]));
            i += 1;
        }
        assert(items@.subrange(0, n as int) == items@);
        ListRef { start, len: n }
    }

    /// Copies the items of `list` to fresh storage at the end of the pool and
    /// returns the handle of the copy. What the pool held stays as it was;
    /// the copy shares no position with any list the pool had before.
    pub fn deep_clone(&mut self, list: ListRef) -> (r: ListRef)
        requires
            old(self).has(list),
        ensures
            final(self)@ == old(self)@ + old(self).items(list),
            r.start == old(self)@.len(),
            r.len == list.len,
    {
        let start = self.storage.len();
        let mut i: usize = 0;
        while i < list.len
            invariant
                i <= list.len,
                list.end() <= old(self)@.len(),
                start == old(self)@.len(),
                self@ == old(self)@ + old(self).items(list).subrange(0, i as int),
            decreases list.len - i,
        {
            let x = self.storage[list.start + i];
            self.storage.push(x);
            assert(old(self).items(list).subrange(0, i + 1) == old(self).items(list).subrange(
                0,
                i as int,
            ).push(x));
            i += 1;
        }
        assert(old(self).items(list).subrange(0, list.len as int) == old(self).items(list));
        ListRef { start, len: list.len }
    }

    /// Item `i` of `list`.
    pub fn get(&self, list: ListRef, i: usize) -> (x: T)
        requires
            self.has(list),
            i < list.len,
        ensures
            x == self.items(list)[i as int],
    {
        assert(self.storage.len() == self@.len());
        self.storage[list.start + i]
    }

    /// The items of `list`, in place.
    pub fn slice(&self, list: ListRef) -> (r: &[T])
        requires
            self.has(list),
        ensures
            r@ == self.items(list),
    {
        assert(self.storage.len() == self@.len());
        vstd::slice::slice_subrange(self.storage.as_slice(), list.start, list.start + list.len)
    }

    /// Writes `x` over item `i` of `list`. Every list that shares that
    /// position sees the write; a list disjoint from `list` does not.
    pub fn set(&mut self, list: ListRef, i: usize, x: T)
        requires
            old(self).has(list),
            i < list.len,
        ensures
            final(self)@ == old(self)@.update(list.start + i, x),
    {
        assert(self.storage.len() == self@.len());
        self.storage[list.start + i] = x;
    }

    /// A copy of the items of `list`.
    pub fn to_vec(&self, list: ListRef) -> (r: Vec<T>)
        requires
            self.has(list),
        ensures
            r@ == self.items(list),
    {
        let mut r: Vec<T> = Vec::new();
        let mut i: usize = 0;
        while i < list.len
            invariant
                i <= list.len,
                self.has(list),
                self.storage.len() == self@.len(),
                r@ == self.items(list).subrange(0, i as int),
            decreases list.len - i,
        {
            r.push(self.storage[list.start + i]);
            assert(self.items(list).subrange(0, i + 1) == self.items(list).subrange(0, i as int).push(
                self.items(list)[i as int],
            ));
            i += 1;
        }
        assert(self.items(list).subrange(0, list.len as int) == self.items(list));
        r
    }
}

/// Appending to the storage changes no list that lay within it.
pub proof fn lemma_append_keeps_lists<T>(storage: Seq<T>, more: Seq<T>, list: ListRef)
    requires
        list_in(storage, list),
    ensures
        list_in(storage + more, list),
        list_items(storage + more, list) == list_items(storage, list),
{
    assert(list_items(storage + more, list) =~= list_items(storage, list));
}

/// A write through one list changes no list that is disjoint from it: a
/// private copy can be edited and the list it was taken from stays as it was.
pub proof fn lemma_write_keeps_disjoint_lists<T>(
    storage: Seq<T>,
    written: ListRef,
    i: int,
    x: T,
    other: ListRef,
)
    requires
        list_in(storage, written),
        list_in(storage, other),
        0 <= i < written.len,
        written.disjoint(other),
    ensures
        list_items(storage.update(written.start + i, x), other) == list_items(storage, other),
        list_items(storage.update(written.start + i, x), written) == list_items(
            storage,
            written,
        ).update(i, x),
{
    assert(list_items(storage.update(written.start + i, x), other) =~= list_items(storage, other));
    assert(list_items(storage.update(written.start + i, x), written) =~= list_items(
        storage,
        written,
    ).update(i, x));
}

} // verus!
