//! A word with a load-linked / store-conditional interface: the word is
//! kept together with a counter that every successful conditional store
//! moves on, so that a conditional store fails whenever another one came
//! between it and its linked load, even if the word is back at the value
//! that was loaded.

use crate::mem::epoch::MemOrder;
use std::marker::PhantomData;
use vstd::prelude::*;

verus! {

/// A value that is kept in a 64-bit word.
pub trait IsU64: Sized {
    /// The word for the value.
    spec fn word(&self) -> u64;

    /// The value for a word.
    spec fn of_word(val: u64) -> Self;

    /// The value for the word `val`.
    fn from_u64(val: u64) -> (r: Self)
        ensures
            r == Self::of_word(val),
    ;

    /// The word for the value.
    fn to_u64(&self) -> (r: u64)
        ensures
            r == self.word(),
    ;
}

impl IsU64 for usize {
    open spec fn word(&self) -> u64 {
        *self as u64
    }

    open spec fn of_word(val: u64) -> usize {
        val as usize
    }

    #[verifier::truncate]
    fn from_u64(val: u64) -> (r: usize) {
        #[verifier::truncate]
        (val as usize)
    }

    fn to_u64(&self) -> (r: u64) {
        *self as u64
    }
}

impl IsU64 for isize {
    open spec fn word(&self) -> u64 {
        *self as u64
    }

    open spec fn of_word(val: u64) -> isize {
        val as isize
    }

    fn from_u64(val: u64) -> (r: isize) {
        #[verifier::truncate]
        (val as isize)
    }

    fn to_u64(&self) -> (r: u64) {
        #[verifier::truncate]
        (*self as u64)
    }
}

impl IsU64 for bool {
    open spec fn word(&self) -> u64 {
        if *self {
            1
        } else {
            0
        }
    }

    open spec fn of_word(val: u64) -> bool {
        val == 0
    }

    fn from_u64(val: u64) -> (r: bool) {
        val == 0
    }

    fn to_u64(&self) -> (r: u64) {
        if *self {
            1
        } else {
            0
        }
    }
}

/// The word and its counter.
#[derive(Clone, Copy)]
struct Llsc {
    val: u64,
    counter: u64,
}

/// The flag bit of a word that packs a flag with a counter.
pub const BFLAG: u64 = 0x8000_0000_0000_0000;

/// A flag and a counter, packed into one word.
#[derive(Clone, Copy)]
pub struct LlscBool {
    /// The flag in the top bit, the counter below it.
    pub combined: u64,
}

impl LlscBool {
    /// The flag.
    pub fn get_bool(&self) -> (r: bool)
        ensures
            r == (self.combined & BFLAG != 0),
            r == (self.combined >= BFLAG),
    {
        let c: u64 = self.combined;
        assert((c & 0x8000_0000_0000_0000 != 0) == (c >= 0x8000_0000_0000_0000)) by (bit_vector);
        (self.combined & BFLAG) != 0
    }
}

/// A word of type `T` with a load-linked / store-conditional interface.
pub struct ExclusiveData<T: IsU64> {
    data: Llsc,
    marker: PhantomData<T>,
}

/// What a linked load saw: the word and its counter.
pub struct LinkedData<T: IsU64> {
    data: (u64, u64),
    marker: PhantomData<T>,
}

/// A pointer, as an address, with a load-linked / store-conditional
/// interface.
pub type ExclusivePtr = ExclusiveData<usize>;

/// A `usize` with a load-linked / store-conditional interface.
pub type ExclusiveUsize = ExclusiveData<usize>;

/// An `isize` with a load-linked / store-conditional interface.
pub type ExclusiveIsize = ExclusiveData<isize>;

/// A `bool` with a load-linked / store-conditional interface.
pub type ExclusiveBool = ExclusiveData<bool>;

/// What a linked load of a pointer saw.
pub type LinkedPtr = LinkedData<usize>;

/// What a linked load of a `usize` saw.
pub type LinkedUsize = LinkedData<usize>;

/// What a linked load of an `isize` saw.
pub type LinkedIsize = LinkedData<isize>;

/// What a linked load of a `bool` saw.
pub type LinkedBool = LinkedData<bool>;

/// Whether the interface is implemented without locks.
pub fn is_lock_free() -> (r: bool)
    ensures
        r,
{
    true
}

impl<T: IsU64> ExclusiveData<T> {
    /// The word held.
    pub closed spec fn word(&self) -> u64 {
        self.data.val
    }

    /// The counter, which every successful conditional store moves on.
    pub closed spec fn counter(&self) -> u64 {
        self.data.counter
    }

    /// A word that holds `val`. The counter starts at the word.
    pub fn new(val: T) -> (r: ExclusiveData<T>)
        ensures
            r.word() == val.word(),
            r.counter() == val.word(),
    {
        let w = val.to_u64();
        ExclusiveData { data: Llsc { val: w, counter: w }, marker: PhantomData }
    }

    /// The value held.
    pub fn load(&self, ord: MemOrder) -> (r: T)
        ensures
            r == T::of_word(self.word()),
    {
        T::from_u64(self.data.val)
    }

    /// Stores `val` and leaves the counter as it is. A conditional store
    /// whose linked load saw another word fails after this; one that saw
    /// the same word does not notice.
    pub fn store_direct(&mut self, val: T, ord: MemOrder)
        ensures
            final(self).word() == val.word(),
            final(self).counter() == old(self).counter(),
    {
        self.data.val = val.to_u64();
    }

    /// Stores `val`, leaves the counter as it is and returns the value
    /// that was held.
    pub fn exchange_direct(&mut self, val: T, ord: MemOrder) -> (r: T)
        ensures
            r == T::of_word(old(self).word()),
            final(self).word() == val.word(),
            final(self).counter() == old(self).counter(),
    {
        let prev = self.data.val;
        self.data.val = val.to_u64();
        T::from_u64(prev)
    }

    /// Loads the word together with its counter, for a conditional store
    /// later.
    pub fn load_linked(&self, ord: MemOrder) -> (r: LinkedData<T>)
        ensures
            r.seen() == (self.word(), self.counter()),
    {
        LinkedData { data: (self.data.val, self.data.counter), marker: PhantomData }
    }
}

impl<T: IsU64> LinkedData<T> {
    /// The word and the counter that the linked load saw.
    pub closed spec fn seen(&self) -> (u64, u64) {
        self.data
    }

    /// The value that the linked load saw.
    pub fn get(&self) -> (r: T)
        ensures
            r == T::of_word(self.seen().0),
    {
        T::from_u64(self.data.0)
    }

    /// Stores `val` into `target` if `target` holds the word and the
    /// counter that the linked load saw, and moves the counter on.
    /// Otherwise leaves `target` as it is and returns what it holds now,
    /// for another try.
    pub fn store_conditional(self, target: &mut ExclusiveData<T>, val: T, ord: MemOrder) -> (r:
        Option<LinkedData<T>>)
        ensures
            r is None <==> (old(target).word(), old(target).counter()) == self.seen(),
            r is None ==> final(target).word() == val.word() && final(target).counter()
                == moved_on(old(target).counter()),
            r matches Some(now) ==> *final(target) == *old(target) && now.seen() == (
                old(target).word(),
                old(target).counter(),
            ),
    {
        if target.data.val == self.data.0 && target.data.counter == self.data.1 {
            target.data.val = val.to_u64();
            target.data.counter = target.data.counter.wrapping_add(1);
            None
        } else {
            Some(LinkedData { data: (target.data.val, target.data.counter), marker: PhantomData })
        }
    }
}

/// The counter after a successful conditional store.
pub open spec fn moved_on(counter: u64) -> u64 {
    if counter == u64::MAX {
        0
    } else {
        (counter + 1) as u64
    }
}

/// A conditional store fails if another one succeeded since its linked
/// load, whatever that one stored: the counter has moved on, even where
/// the word is back at what the linked load saw.
pub proof fn lemma_stale_link_fails(seen: (u64, u64), word_now: u64)
    ensures
        (word_now, moved_on(seen.1)) != seen,
{
}

} // verus!
