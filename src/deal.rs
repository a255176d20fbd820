//! Moving items between owned collections: `give` removes by position,
//! `take` appends, and `deal` does the one and then the other.

use vstd::prelude::*;

verus! {

/// Why an item could not be moved.
#[derive(Debug, Copy, Clone, PartialEq, Eq, Structural)]
pub enum DealError {
    /// The giving collection holds nothing.
    NothingToGive,
    /// The receiving collection cannot accept the item.
    CannotTake,
    /// The position is past the end of the giving collection.
    OutOfBounds,
}

pub type DealResult<T> = Result<T, DealError>;

/// What `give(index)` on a collection holding `before` does: the outcome `r`
/// and the collection's contents `after`. An empty collection is reported
/// before a position past its end.
pub open spec fn give_post<T>(before: Seq<T>, index: int, r: DealResult<T>, after: Seq<T>) -> bool {
    if before.len() == 0 {
        r == Err::<T, DealError>(DealError::NothingToGive) && after == before
    } else if index >= before.len() {
        r == Err::<T, DealError>(DealError::OutOfBounds) && after == before
    } else {
        r == Ok::<T, DealError>(before[index]) && after == before.remove(index)
    }
}

/// What `deal(index, taker)` does: the giver goes from `src` to `src2`, the
/// taker from `dst` to `dst2`. On failure neither changes.
pub open spec fn deal_post<T>(
    src: Seq<T>,
    index: int,
    r: DealResult<()>,
    src2: Seq<T>,
    dst: Seq<T>,
    dst2: Seq<T>,
) -> bool {
    if src.len() == 0 {
        r == Err::<(), DealError>(DealError::NothingToGive) && src2 == src && dst2 == dst
    } else if index >= src.len() {
        r == Err::<(), DealError>(DealError::OutOfBounds) && src2 == src && dst2 == dst
    } else {
        r == Ok::<(), DealError>(()) && src2 == src.remove(index) && dst2 == dst.push(src[index])
    }
}

/// A collection that hands out the item at a position.
pub trait Give {
    type Item;

    /// The items the collection can give, in order.
    spec fn supply(&self) -> Seq<Self::Item>;

    fn give(&mut self, index: usize) -> (r: DealResult<Self::Item>)
        ensures
            give_post(old(self).supply(), index as int, r, final(self).supply()),
    ;
}

/// A collection that accepts items at its end.
pub trait Take {
    type Item;

    /// The items the collection holds, in order.
    spec fn stock(&self) -> Seq<Self::Item>;

    fn take(&mut self, item: Self::Item)
        ensures
            final(self).stock() == old(self).stock().push(item),
    ;
}

/// Moves the item at `index` from `self` to the end of `taker`. If `self`
/// cannot give it, `taker` is left as it was.
pub trait Deal<I, T>: Give<Item = I> where T: Take<Item = I> {
    fn deal(&mut self, index: usize, taker: &mut T) -> (r: DealResult<()>)
        ensures
            deal_post(
                old(self).supply(),
                index as int,
                r,
                final(self).supply(),
                old(taker).stock(),
                final(taker).stock(),
            ),
            r is Err ==> *final(taker) == *old(taker),
    {
        match self.give(index) {
            Ok(item) => {
                taker.take(item);
                Ok(())
            },
            Err(e) => Err(e),
        }
    }
}

impl<G, I, T> Deal<I, T> for G where G: Give<Item = I>, T: Take<Item = I> {

}

} // verus!
