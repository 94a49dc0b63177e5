//! Typed handles and the append-only arena they index.

use vstd::prelude::*;
use core::marker::PhantomData;

verus! {

/// A handle: a small integer that names one slot of one arena.
///
/// Each kind of entity has a handle type of its own, so that a handle of one
/// kind cannot be used where another kind is expected.
pub trait EntityRef: Copy + Sized {
    /// The slot this handle names.
    spec fn slot(self) -> nat;

    /// The handle of slot `index`.
    fn new(index: usize) -> (e: Self)
        ensures
            e.slot() == index,
    ;

    /// The slot of this handle.
    fn index(self) -> (i: usize)
        ensures
            i == self.slot(),
    ;
}

/// An SSA value of a function body.
#[derive(Clone, Copy, Debug, PartialEq, Eq, Structural, PartialOrd, Ord, Hash)]
pub struct Value(pub usize);

impl EntityRef for Value {
    open spec fn slot(self) -> nat {
        self.0 as nat
    }

    fn new(index: usize) -> (e: Self) {
        Value(index)
    }

    fn index(self) -> (i: usize) {
        self.0
    }
}

/// A basic block of a function body.
#[derive(Clone, Copy, Debug, PartialEq, Eq, Structural, PartialOrd, Ord, Hash)]
pub struct Block(pub usize);

impl EntityRef for Block {
    open spec fn slot(self) -> nat {
        self.0 as nat
    }

    fn new(index: usize) -> (e: Self) {
        Block(index)
    }

    fn index(self) -> (i: usize) {
        self.0
    }
}

/// A function of a module.
#[derive(Clone, Copy, Debug, PartialEq, Eq, Structural, PartialOrd, Ord, Hash)]
pub struct Func(pub usize);

impl EntityRef for Func {
    open spec fn slot(self) -> nat {
        self.0 as nat
    }

    fn new(index: usize) -> (e: Self) {
        Func(index)
    }

    fn index(self) -> (i: usize) {
        self.0
    }
}

/// A linear memory of a module.
#[derive(Clone, Copy, Debug, PartialEq, Eq, Structural, PartialOrd, Ord, Hash)]
pub struct Memory(pub usize);

impl EntityRef for Memory {
    open spec fn slot(self) -> nat {
        self.0 as nat
    }

    fn new(index: usize) -> (e: Self) {
        Memory(index)
    }

    fn index(self) -> (i: usize) {
        self.0
    }
}

/// A function signature of a module.
#[derive(Clone, Copy, Debug, PartialEq, Eq, Structural, PartialOrd, Ord, Hash)]
pub struct Signature(pub usize);

impl EntityRef for Signature {
    open spec fn slot(self) -> nat {
        self.0 as nat
    }

    fn new(index: usize) -> (e: Self) {
        Signature(index)
    }

    fn index(self) -> (i: usize) {
        self.0
    }
}

/// A global variable of a module.
#[derive(Clone, Copy, Debug, PartialEq, Eq, Structural, PartialOrd, Ord, Hash)]
pub struct Global(pub usize);

impl EntityRef for Global {
    open spec fn slot(self) -> nat {
        self.0 as nat
    }

    fn new(index: usize) -> (e: Self) {
        Global(index)
    }

    fn index(self) -> (i: usize) {
        self.0
    }
}

/// A table of a module.
#[derive(Clone, Copy, Debug, PartialEq, Eq, Structural, PartialOrd, Ord, Hash)]
pub struct Table(pub usize);

impl EntityRef for Table {
    open spec fn slot(self) -> nat {
        self.0 as nat
    }

    fn new(index: usize) -> (e: Self) {
        Table(index)
    }

    fn index(self) -> (i: usize) {
        self.0
    }
}

/// Append-only storage of `T`, addressed by handles of type `Idx`.
///
/// Nothing is ever removed: a handle stays valid, and keeps naming the same
/// slot, for as long as the arena lives. The view is the sequence of items in
/// the order in which they were pushed.
#[derive(Debug, PartialEq, Eq)]
pub struct EntityVec<Idx: EntityRef, T> {
    pub items: Vec<T>,
    pub marker: PhantomData<Idx>,
}

impl<Idx: EntityRef, T> View for EntityVec<Idx, T> {
    type V = Seq<T>;

    open spec fn view(&self) -> Seq<T> {
        self.items@
    }
}

impl<Idx: EntityRef, T: Clone> Clone for EntityVec<Idx, T> {
    /// An arena with a clone of each item, in the same slot.
    fn clone(&self) -> (r: Self)
        ensures
            r@.len() == self@.len(),
            forall|i: int| 0 <= i < self@.len() ==> cloned::<T>(self@[i], #[trigger] r@[i]),
    {
        EntityVec { items: self.items.clone(), marker: PhantomData }
    }
}

impl<Idx: EntityRef, T> EntityVec<Idx, T> {
    /// Whether `h` names a slot of this arena.
    pub open spec fn has(&self, h: Idx) -> bool {
        h.slot() < self@.len()
    }

    /// Whether this arena holds everything `earlier` held, in the same slots.
    pub open spec fn extends(&self, earlier: &Self) -> bool {
        earlier@.is_prefix_of(self@)
    }

    /// An arena without slots.
    pub fn new() -> (a: Self)
        ensures
            a@ == Seq::<T>::empty(),
    {
        EntityVec { items: Vec::new(), marker: PhantomData }
    }

    /// The number of slots.
    pub fn len(&self) -> (n: usize)
        ensures
            n == self@.len(),
    {
        self.items.len()
    }

    /// Whether `h` names a slot of this arena.
    pub fn is_valid(&self, h: Idx) -> (r: bool)
        ensures
            r == self.has(h),
    {
        h.index() < self.items.len()
    }

    /// Appends `item` and returns the handle of its slot. The slot is the
    /// number of slots there were before, so the handle differs from every
    /// handle this arena has given out.
    pub fn push(&mut self, item: T) -> (h: Idx)
        ensures
            final(self)@ == old(self)@.push(item),
            h.slot() == old(self)@.len(),
    {
        let h = Idx::new(self.items.len());
        self.items.push(item);
        h
    }

    /// The item in the slot of `h`, if the arena has that slot.
    pub fn get(&self, h: Idx) -> (r: Option<&T>)
        ensures
            r == (if self.has(h) {
                Some(&self@[h.slot() as int])
            } else {
                None
            }),
    {
        let i = h.index();
        if i < self.items.len() {
            Some(&self.items[i])
        } else {
            None
        }
    }

    /// Mutable access to the item in the slot of `h`, if the arena has that
    /// slot. No other slot changes, whatever is written through the result.
    pub fn get_mut(&mut self, h: Idx) -> (r: Option<&mut T>)
        ensures
            match r {
                Some(item) => {
                    &&& old(self).has(h)
                    &&& *item == old(self)@[h.slot() as int]
                    &&& final(self)@ == old(self)@.update(h.slot() as int, *final(item))
                },
                None => !old(self).has(h) && final(self)@ == old(self)@,
            },
    {
        let i = h.index();
        if i < self.items.len() {
            Some(&mut self.items[i])
        } else {
            None
        }
    }

    /// The item in the slot of `h`.
    pub fn at(&self, h: Idx) -> (r: &T)
        requires
            self.has(h),
        ensures
            *r == self@[h.slot() as int],
    {
        &self.items[h.index()]
    }

    /// Mutable access to the item in the slot of `h`. No other slot changes,
    /// whatever is written through the result.
    pub fn at_mut(&mut self, h: Idx) -> (r: &mut T)
        requires
            old(self).has(h),
        ensures
            *r == old(self)@[h.slot() as int],
            final(self)@ == old(self)@.update(h.slot() as int, *final(r)),
    {
        &mut self.items[h.index()]
    }

    /// Every handle of this arena with its item, in the order of insertion.
    pub fn entries(&self) -> (r: Vec<(Idx, &T)>)
        ensures
            r@.len() == self@.len(),
            forall|i: int|
                0 <= i < r@.len() ==> (#[trigger] r@[i]).0.slot() == i && *r@[i].1 == self@[i],
    {
        let mut r: Vec<(Idx, &T)> = Vec::new();
        let n = self.items.len();
        let mut i: usize = 0;
        while i < n
            invariant
                i <= n,
                n == self@.len(),
                r@.len() == i,
                forall|j: int|
                    0 <= j < i ==> (#[trigger] r@[j]).0.slot() == j && *r@[j].1 == self@[j],
            decreases n - i,
        {
            r.push((Idx::new(i), &self.items[i]));
            i += 1;
        }
        r
    }
}

/// A handle that `push` returns differs from every handle of the arena as it
/// was at any earlier time, however much was pushed in between: handles are
/// never given out twice.
pub proof fn lemma_handles_never_reused<Idx: EntityRef, T>(
    earlier: EntityVec<Idx, T>,
    later: EntityVec<Idx, T>,
    known: Idx,
    fresh: Idx,
)
    requires
        later.extends(&earlier),
        earlier.has(known),
        fresh.slot() == later@.len(),
    ensures
        fresh != known,
        fresh.slot() > known.slot(),
{
}

} // verus!
