use crate::error::Error;
use core::marker::PhantomData;
use vstd::prelude::*;

verus! {

/// An index that is always below `SIZE`. The marker `M` keeps the indices of
/// one kind of collection apart from those of another.
#[derive(Debug, PartialEq, Eq)]
pub struct Andex<M, const SIZE: usize> {
    pub(crate) index: usize,
    pub(crate) marker: PhantomData<M>,
}

impl<M, const SIZE: usize> Andex<M, SIZE> {
    /// Every index is below `SIZE`.
    #[verifier::type_invariant]
    pub open(crate) spec fn wf(self) -> bool {
        self.index < SIZE
    }

    /// The position this index stands for.
    pub open(crate) spec fn pos(self) -> int {
        self.index as int
    }

    /// The index that stands for position `pos`.
    pub open(crate) spec fn at(pos: int) -> Self {
        Andex { index: pos as usize, marker: PhantomData }
    }

    /// The index for position `index`, or `OutOfRange` when there is no such position.
    pub fn try_from(index: usize) -> (r: Result<Self, Error>)
        ensures
            index < SIZE ==> r == Ok::<Self, Error>(Self::at(index as int)),
            index >= SIZE ==> r == Err::<Self, Error>(Error::OutOfRange),
            r matches Ok(a) ==> a.wf(),
    {
        if index < SIZE {
            Ok(Andex { index, marker: PhantomData })
        } else {
            Err(Error::OutOfRange)
        }
    }

    /// The position this index stands for.
    pub fn to_usize(&self) -> (r: usize)
        ensures
            r == self.pos(),
            r < SIZE,
    {
        proof {
            use_type_invariant(self);
        }
        self.index
    }

    /// Starts an enumeration of all indices, lowest first.
    pub fn iter() -> (it: AndexIter<M, SIZE>)
        ensures
            it.done() == 0,
    {
        AndexIter { upcoming: 0, marker: PhantomData }
    }
}

impl<M, const SIZE: usize> Clone for Andex<M, SIZE> {
    fn clone(&self) -> (r: Self)
        ensures
            r == *self,
    {
        proof {
            use_type_invariant(self);
        }
        Andex { index: self.index, marker: PhantomData }
    }
}

impl<M, const SIZE: usize> Copy for Andex<M, SIZE> {

}

/// Two indices are the same when they stand for the same position.
pub proof fn lemma_andex_ext<M, const SIZE: usize>(a: Andex<M, SIZE>, b: Andex<M, SIZE>)
    requires
        a.pos() == b.pos(),
    ensures
        a == b,
{
}

/// The position of `Andex::at(pos)` is `pos`, for every position below `SIZE`.
pub proof fn lemma_andex_at<M, const SIZE: usize>(pos: int)
    requires
        0 <= pos < SIZE,
    ensures
        Andex::<M, SIZE>::at(pos).pos() == pos,
        Andex::<M, SIZE>::at(pos).wf(),
{
}

/// An enumeration of the indices below `SIZE`, in rising order.
#[derive(Debug)]
pub struct AndexIter<M, const SIZE: usize> {
    pub(crate) upcoming: usize,
    pub(crate) marker: PhantomData<M>,
}

impl<M, const SIZE: usize> AndexIter<M, SIZE> {
    /// No more than `SIZE` indices are handed out.
    #[verifier::type_invariant]
    pub open(crate) spec fn wf(self) -> bool {
        self.upcoming <= SIZE
    }

    /// How many indices were handed out so far.
    pub open(crate) spec fn done(self) -> int {
        self.upcoming as int
    }

    /// Hands out the next index, or nothing once all `SIZE` were handed out.
    pub fn next(&mut self) -> (r: Option<Andex<M, SIZE>>)
        ensures
            old(self).done() < SIZE ==> r == Some(Andex::<M, SIZE>::at(old(self).done()))
                && final(self).done() == old(self).done() + 1,
            old(self).done() >= SIZE ==> r is None && final(self).done() == old(self).done(),
            r matches Some(a) ==> a.wf() && a.pos() == old(self).done(),
            final(self).done() <= SIZE,
    {
        proof {
            use_type_invariant(&*self);
        }
        if self.upcoming < SIZE {
            let index = self.upcoming;
            self.upcoming = index + 1;
            Some(Andex { index, marker: PhantomData })
        } else {
            None
        }
    }
}

/// A fixed number of items, reached only through indices that are in range.
#[derive(Debug)]
pub struct AndexableArray<M, Item, const SIZE: usize> {
    pub items: [Item; SIZE],
    pub marker: PhantomData<M>,
}

impl<M, Item, const SIZE: usize> View for AndexableArray<M, Item, SIZE> {
    type V = Seq<Item>;

    /// The items, by position.
    open spec fn view(&self) -> Seq<Item> {
        self.items@
    }
}

impl<M, Item: Copy, const SIZE: usize> AndexableArray<M, Item, SIZE> {
    /// The item at `index`.
    pub open spec fn spec_index(self, index: Andex<M, SIZE>) -> Item {
        self@[index.pos()]
    }

    /// An array that holds `item` at every position.
    pub fn filled(item: Item) -> (a: Self)
        ensures
            a@.len() == SIZE,
            forall|i: int| 0 <= i < SIZE ==> a@[i] == item,
    {
        AndexableArray { items: [item;SIZE], marker: PhantomData }
    }

    /// The item at `index`.
    pub fn get(&self, index: Andex<M, SIZE>) -> (item: Item)
        ensures
            item == self[index],
            item == self@[index.pos()],
    {
        let i = index.to_usize();
        self.items[i]
    }

    /// Puts `item` at `index` and leaves the other items as they were.
    pub fn set(&mut self, index: Andex<M, SIZE>, item: Item)
        ensures
            final(self)@ == old(self)@.update(index.pos(), item),
    {
        let i = index.to_usize();
        self.items[i] = item;
    }
}

impl<M, Item: Copy, const SIZE: usize> Clone for AndexableArray<M, Item, SIZE> {
    fn clone(&self) -> (r: Self)
        ensures
            r == *self,
    {
        AndexableArray { items: self.items, marker: PhantomData }
    }
}

impl<M, Item: Copy, const SIZE: usize> Copy for AndexableArray<M, Item, SIZE> {

}

} // verus!
