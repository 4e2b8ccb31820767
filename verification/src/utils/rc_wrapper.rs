//! Shared values without shared ownership.
//!
//! An [`Arena`] owns every value it is given, each in a slot of its own. What
//! the rest of the program holds are handles: the number of a slot and the
//! generation the slot had when the value was put there. A slot's generation
//! goes up when its value is taken out, so a handle kept beyond the life of
//! its value no longer fits, even after the slot is used again.
//!
//! A [`HashableRcRefCell`] is the handle of an owner, kept only while the
//! value is alive. A [`WeakHashableRcRefCell`] is the handle of an observer:
//! it may outlive the value and has to be upgraded before use.

use vstd::prelude::*;
use core::marker::PhantomData;

verus! {

/// One place of an arena.
pub struct Slot<T> {
    pub(crate) generation: u64,
    pub(crate) value: Option<T>,
}

/// The owner of all values that handles stand for.
pub struct Arena<T> {
    pub(crate) slots: Vec<Slot<T>>,
    pub(crate) free: Vec<usize>,
}

/// The handle of an owner.
#[derive(PartialEq, Eq, Structural, Debug)]
pub struct HashableRcRefCell<T> {
    pub(crate) slot: usize,
    pub(crate) generation: u64,
    pub(crate) marker: PhantomData<T>,
}

/// The handle of an observer.
#[derive(PartialEq, Eq, Structural, Debug)]
pub struct WeakHashableRcRefCell<T> {
    pub(crate) slot: usize,
    pub(crate) generation: u64,
    pub(crate) marker: PhantomData<T>,
}

impl<T> Clone for HashableRcRefCell<T> {
    fn clone(&self) -> (r: Self)
        ensures
            r == *self,
    {
        HashableRcRefCell { slot: self.slot, generation: self.generation, marker: PhantomData }
    }
}

impl<T> Copy for HashableRcRefCell<T> {}

impl<T> Clone for WeakHashableRcRefCell<T> {
    fn clone(&self) -> (r: Self)
        ensures
            r == *self,
    {
        WeakHashableRcRefCell { slot: self.slot, generation: self.generation, marker: PhantomData }
    }
}

impl<T> Copy for WeakHashableRcRefCell<T> {}

impl<T> Arena<T> {
    /// The number of slots, used or not.
    pub open(crate) spec fn size(&self) -> int {
        self.slots.len() as int
    }

    /// Slot `i` holds a value.
    pub open(crate) spec fn occupied(&self, i: int) -> bool {
        0 <= i < self.slots.len() && self.slots[i].value is Some
    }

    /// The value in slot `i`.
    pub open(crate) spec fn value(&self, i: int) -> T {
        self.slots[i].value->0
    }

    /// The generation of slot `i`.
    pub open(crate) spec fn generation(&self, i: int) -> u64 {
        self.slots[i].generation
    }

    /// Slot `slot` holds a value put there in generation `generation`.
    pub open(crate) spec fn holds(&self, slot: usize, generation: u64) -> bool {
        self.occupied(slot as int) && self.slots[slot as int].generation == generation
    }

    /// `strong` stands for a value of this arena.
    pub open(crate) spec fn has(&self, strong: HashableRcRefCell<T>) -> bool {
        self.holds(strong.slot, strong.generation)
    }

    /// `weak` stands for a value of this arena.
    pub open(crate) spec fn sees(&self, weak: WeakHashableRcRefCell<T>) -> bool {
        self.holds(weak.slot, weak.generation)
    }

    /// Slot `i`, with its generation.
    pub open(crate) spec fn slot(&self, i: int) -> Slot<T> {
        self.slots[i]
    }

    /// The free list names empty slots, each once.
    pub open(crate) spec fn wf(&self) -> bool {
        &&& forall|k: int|
            0 <= k < self.free.len() ==> (#[trigger] self.free[k]) < self.slots.len()
                && self.slots[self.free[k] as int].value is None
        &&& forall|j: int, k: int|
            0 <= j < k < self.free.len() ==> self.free[j] != self.free[k]
    }

    /// An arena without values.
    pub fn new() -> (a: Self)
        ensures
            a.wf(),
            a.size() == 0,
    {
        Arena { slots: Vec::new(), free: Vec::new() }
    }

    /// The number of slots, used or not.
    pub fn capacity(&self) -> (n: usize)
        ensures
            n == self.size(),
    {
        self.slots.len()
    }

    /// Whether `strong` still stands for a value.
    pub fn contains(&self, strong: &HashableRcRefCell<T>) -> (b: bool)
        ensures
            b == self.has(*strong),
    {
        strong.slot < self.slots.len() && self.slots[strong.slot].value.is_some()
            && self.slots[strong.slot].generation == strong.generation
    }

    /// The value `strong` stands for.
    pub fn get(&self, strong: &HashableRcRefCell<T>) -> (r: &T)
        requires
            self.has(*strong),
        ensures
            *r == self.value(strong.index()),
    {
        self.slots[strong.slot].value.as_ref().unwrap()
    }

    /// Puts `t` into an empty slot, or into a new one where none is empty.
    pub(crate) fn insert(&mut self, t: T) -> (r: (usize, u64))
        requires
            old(self).wf(),
        ensures
            final(self).wf(),
            !old(self).occupied(r.0 as int),
            final(self).holds(r.0, r.1),
            final(self).value(r.0 as int) == t,
            final(self).size() == old(self).size() || (final(self).size() == old(self).size() + 1
                && r.0 == old(self).size()),
            forall|i: int|
                0 <= i < old(self).size() && i != r.0 ==> final(self).slots[i] == old(self).slots[i],
    {
        match self.free.pop() {
            Some(i) => {
                let generation = self.slots[i].generation;
                self.slots[i].value = Some(t);
                (i, generation)
            },
            None => {
                let i = self.slots.len();
                self.slots.push(Slot { generation: 0, value: Some(t) });
                (i, 0)
            },
        }
    }

    /// Takes the value out of slot `i`. The slot's generation goes up; a slot
    /// whose generation cannot go up any more is never used again.
    pub(crate) fn remove(&mut self, i: usize) -> (t: T)
        requires
            old(self).wf(),
            old(self).occupied(i as int),
        ensures
            final(self).wf(),
            t == old(self).value(i as int),
            final(self).size() == old(self).size(),
            !final(self).occupied(i as int),
            forall|g: u64| !final(self).holds(i, g),
            forall|j: int|
                0 <= j < old(self).size() && j != i ==> final(self).slots[j] == old(self).slots[j],
    {
        let t = self.slots[i].value.take().unwrap();
        if self.slots[i].generation < u64::MAX {
            self.slots[i].generation = self.slots[i].generation + 1;
            self.free.push(i);
        }
        t
    }
}

impl<T> HashableRcRefCell<T> {
    /// The slot the handle names.
    pub open(crate) spec fn index(&self) -> int {
        self.slot as int
    }

    /// The observer's handle of the same value.
    pub open(crate) spec fn weak(&self) -> WeakHashableRcRefCell<T> {
        WeakHashableRcRefCell { slot: self.slot, generation: self.generation, marker: PhantomData }
    }

    /// Gives `t` to the arena and returns the handle that stands for it.
    pub fn new(arena: &mut Arena<T>, t: T) -> (r: Self)
        requires
            old(arena).wf(),
        ensures
            final(arena).wf(),
            !old(arena).occupied(r.index()),
            final(arena).has(r),
            final(arena).value(r.index()) == t,
            final(arena).size() == old(arena).size() || (final(arena).size() == old(arena).size()
                + 1 && r.index() == old(arena).size()),
            forall|i: int|
                0 <= i < old(arena).size() && i != r.index() ==> final(arena).slot(i) == old(
                    arena,
                ).slot(i),
    {
        let (slot, generation) = arena.insert(t);
        HashableRcRefCell { slot, generation, marker: PhantomData }
    }

    /// Whether the two handles stand for one value.
    pub fn same(&self, other: &Self) -> (b: bool)
        ensures
            b == (*self == *other),
    {
        self.slot == other.slot && self.generation == other.generation
    }

    /// The number of the slot the handle names.
    pub fn slot(&self) -> (i: usize)
        ensures
            i == self.index(),
    {
        self.slot
    }

    /// The handle of the value that slot `slot` holds.
    pub(crate) fn at(arena: &Arena<T>, slot: usize) -> (r: Self)
        requires
            arena.occupied(slot as int),
        ensures
            arena.has(r),
            r.index() == slot,
    {
        HashableRcRefCell { slot, generation: arena.slots[slot].generation, marker: PhantomData }
    }

    /// The number of owners of the value: one, the arena, while the value is
    /// alive, and none after.
    pub fn strong_count(&self, arena: &Arena<T>) -> (n: usize)
        ensures
            n == if arena.has(*self) { 1usize } else { 0usize },
    {
        if arena.contains(self) { 1 } else { 0 }
    }

    /// The observer's handle of the same value.
    pub fn downgrade(&self) -> (w: WeakHashableRcRefCell<T>)
        ensures
            w == self.weak(),
    {
        WeakHashableRcRefCell { slot: self.slot, generation: self.generation, marker: PhantomData }
    }
}

impl<T> WeakHashableRcRefCell<T> {
    /// The slot the handle names.
    pub open(crate) spec fn index(&self) -> int {
        self.slot as int
    }

    /// The owner's handle of the same value.
    pub open(crate) spec fn strong(&self) -> HashableRcRefCell<T> {
        HashableRcRefCell { slot: self.slot, generation: self.generation, marker: PhantomData }
    }

    /// The handle stands for no value, in whatever arena.
    pub open(crate) spec fn dangling(&self) -> bool {
        self.slot == usize::MAX && self.generation == u64::MAX
    }

    /// Whether the two handles stand for one value.
    pub fn same(&self, other: &Self) -> (b: bool)
        ensures
            b == (*self == *other),
    {
        self.slot == other.slot && self.generation == other.generation
    }

    /// The number of the slot the handle names.
    pub fn slot(&self) -> (i: usize)
        ensures
            i == self.index(),
    {
        self.slot
    }

    /// A dangling handle fits no slot of any arena.
    pub proof fn lemma_dangling(&self, arena: &Arena<T>)
        requires
            self.dangling(),
        ensures
            !arena.sees(*self),
    {
    }

    /// A handle that stands for no value. What it is given is dropped.
    pub fn new(t: T) -> (w: Self)
        ensures
            w.dangling(),
    {
        let _ = t;
        WeakHashableRcRefCell { slot: usize::MAX, generation: u64::MAX, marker: PhantomData }
    }

    /// The number of owners of the value: one, the arena, while the value is
    /// alive, and none after.
    pub fn strong_count(&self, arena: &Arena<T>) -> (n: usize)
        ensures
            n == if arena.sees(*self) { 1usize } else { 0usize },
    {
        match self.upgrade(arena) {
            Some(_) => 1,
            None => 0,
        }
    }

    /// The owner's handle, while the value is alive.
    pub fn upgrade(&self, arena: &Arena<T>) -> (r: Option<HashableRcRefCell<T>>)
        ensures
            r == if arena.sees(*self) { Some(self.strong()) } else { None },
    {
        let strong = HashableRcRefCell { slot: self.slot, generation: self.generation, marker: PhantomData };
        if arena.contains(&strong) {
            Some(strong)
        } else {
            None
        }
    }
}

} // verus!
