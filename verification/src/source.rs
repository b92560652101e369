//! Sources of items: what a lazy enumeration draws from.

use vstd::prelude::*;

verus! {

/// A stream of items that hands them out one at a time.
///
/// A source has one of two models. The model of a source that ends is the
/// finite sequence of the items that it has yet to give (`pending`) and the
/// bounds that it announces on their number (`hint`); a source that keeps
/// to it says so with `obeys`. The model of a source that never ends is the
/// items that it has yet to give, one for each index (`upcoming`); a source
/// that keeps to it says so with `endless`. What is proved of what a
/// source gives is proved of the sources that keep to one of the two. A
/// source written outside verified code claims neither and need not define
/// a model: it can still be drawn from safely.
pub trait Source {
    /// The type of the items.
    type Item;

    /// Whether the source never ends and keeps to the model of such a
    /// source: it gives `upcoming(0)`, then `upcoming(1)`, and so on for
    /// ever, and announces no upper bound.
    open spec fn endless(&self) -> bool {
        false
    }

    /// The item that a source that never ends gives `i` items from now.
    open spec fn upcoming(&self, i: int) -> Self::Item {
        arbitrary()
    }

    /// Whether the source keeps to its model: it gives its pending items
    /// in order, then `None` ever after, and its bounds enclose their
    /// number.
    open spec fn obeys(&self) -> bool {
        false
    }

    /// The items still to come, in the order in which `next` gives them.
    open spec fn pending(&self) -> Seq<Self::Item> {
        Seq::empty()
    }

    /// The bounds that `size_hint` reports: a lower bound on the number of
    /// pending items and, if known, an upper bound.
    open spec fn hint(&self) -> (usize, Option<usize>) {
        (0, None)
    }

    /// Gives the first pending item, or `None` when none is left.
    fn next(&mut self) -> (item: Option<Self::Item>)
        ensures
            final(self).obeys() == old(self).obeys(),
            final(self).endless() == old(self).endless(),
            old(self).endless() ==> {
                &&& item == Some(old(self).upcoming(0))
                &&& forall|i: int|
                    0 <= i ==> #[trigger] final(self).upcoming(i) == old(self).upcoming(i + 1)
            },
            old(self).obeys() ==> {
                &&& match item {
                    Some(first) => {
                        &&& old(self).pending().len() > 0
                        &&& first == old(self).pending()[0]
                        &&& final(self).pending() == old(self).pending().drop_first()
                    },
                    None => {
                        &&& old(self).pending().len() == 0
                        &&& final(self).pending() == old(self).pending()
                    },
                }
            },
    ;

    /// Reports bounds on the number of pending items without consuming any.
    fn size_hint(&self) -> (bounds: (usize, Option<usize>))
        ensures
            self.endless() ==> bounds.1 is None,
            self.obeys() ==> {
                &&& bounds == self.hint()
                &&& bounds.0 <= self.pending().len()
                &&& bounds.1 matches Some(upper) ==> self.pending().len() <= upper
            },
    ;
}

/// Whether `copies` holds, in order, a clone of each item of `items`.
pub open spec fn clones<T: Clone>(items: Seq<T>, copies: Seq<T>) -> bool {
    &&& copies.len() == items.len()
    &&& forall|i: int| 0 <= i < items.len() ==> cloned::<T>(items[i], #[trigger] copies[i])
}

/// A source that can be duplicated: the duplicate goes on from where the
/// source stands, with clones of its items.
pub trait CloneSource: Source + Sized where <Self as Source>::Item: Clone {
    /// A source that has clones of the pending items of this one and
    /// reports the same bounds. It keeps to the model exactly if this one
    /// does.
    fn duplicate(&self) -> (copy: Self)
        ensures
            copy.obeys() == self.obeys(),
            copy.endless() == self.endless(),
            self.endless() ==> forall|i: int|
                0 <= i ==> cloned::<Self::Item>(self.upcoming(i), #[trigger] copy.upcoming(i)),
            self.obeys() ==> {
                &&& clones(self.pending(), copy.pending())
                &&& copy.hint() == self.hint()
            },
    ;
}

/// A source that owns its items in a vector and gives them front to back.
#[derive(Debug)]
pub struct VecSource<T> {
    /// The pending items, last one first.
    stack: Vec<T>,
}

impl<T> VecSource<T> {
    /// A source that gives the items of `items` in order.
    pub fn new(items: Vec<T>) -> (source: Self)
        ensures
            source.obeys(),
            source.pending() == items@,
    {
        let mut items = items;
        let ghost all = items@;
        let mut stack: Vec<T> = Vec::new();
        while items.len() > 0
            invariant
                items@.len() + stack@.len() == all.len(),
                items@ == all.subrange(0, items@.len() as int),
                forall|i: int| 0 <= i < stack@.len() ==> stack@[i] == all[all.len() - 1 - i],
            decreases items.len(),
        {
            let item = items.pop().unwrap();
            stack.push(item);
        }
        let source = VecSource { stack };
        assert(source.pending() =~= all);
        source
    }
}

impl<T> Source for VecSource<T> {
    type Item = T;

    open spec fn obeys(&self) -> bool {
        true
    }

    closed spec fn pending(&self) -> Seq<T> {
        self.stack@.reverse()
    }

    closed spec fn hint(&self) -> (usize, Option<usize>) {
        (self.stack.len(), Some(self.stack.len()))
    }

    fn next(&mut self) -> (item: Option<T>) {
        let item = self.stack.pop();
        proof {
            if old(self).stack@.len() > 0 {
                assert(self.stack@.reverse() =~= old(self).stack@.reverse().drop_first());
            }
        }
        item
    }

    fn size_hint(&self) -> (bounds: (usize, Option<usize>)) {
        (self.stack.len(), Some(self.stack.len()))
    }
}

impl<T> VecSource<T> {
    /// The bounds that a vector source reports are exact.
    pub proof fn lemma_hint_exact(&self)
        ensures
            self.pending().len() <= usize::MAX,
            self.hint() == (self.pending().len() as usize, Some(self.pending().len() as usize)),
    {
        assert(self.stack@.len() == self.stack.len());
    }
}

impl<T: Clone> CloneSource for VecSource<T> {
    fn duplicate(&self) -> (copy: Self) {
        let copy = VecSource { stack: self.stack.clone() };
        proof {
            assert(self.stack@.len() == self.stack.len());
            assert(copy.stack@.len() == copy.stack.len());
            assert forall|i: int| 0 <= i < self.pending().len() implies cloned::<T>(
                self.pending()[i],
                #[trigger] copy.pending()[i],
            ) by {
                assert(self.pending()[i] == self.stack@[self.stack@.len() - 1 - i]);
                assert(copy.pending()[i] == copy.stack@[self.stack@.len() - 1 - i]);
            }
        }
        copy
    }
}

impl<T: Clone> Clone for VecSource<T> {
    fn clone(&self) -> (copy: Self)
        ensures
            clones(self.pending(), copy.pending()),
            copy.hint() == self.hint(),
    {
        self.duplicate()
    }
}

/// A source that gives the items of another and keeps their number to
/// itself: it reports no bounds but the trivial ones.
#[derive(Debug)]
pub struct Unhinted<S: Source> {
    inner: S,
}

impl<S: Source> Unhinted<S> {
    /// A source that gives the items of `inner` without bounds.
    pub fn new(inner: S) -> (source: Self)
        ensures
            source.obeys() == inner.obeys(),
            source.pending() == inner.pending(),
            source.endless() == inner.endless(),
            forall|i: int| #[trigger] source.upcoming(i) == inner.upcoming(i),
    {
        Unhinted { inner }
    }

}

impl<S: Source> Source for Unhinted<S> {
    type Item = S::Item;

    closed spec fn endless(&self) -> bool {
        self.inner.endless()
    }

    closed spec fn upcoming(&self, i: int) -> S::Item {
        self.inner.upcoming(i)
    }

    closed spec fn obeys(&self) -> bool {
        self.inner.obeys()
    }

    closed spec fn pending(&self) -> Seq<S::Item> {
        self.inner.pending()
    }

    open spec fn hint(&self) -> (usize, Option<usize>) {
        (0, None)
    }

    fn next(&mut self) -> (item: Option<S::Item>) {
        self.inner.next()
    }

    fn size_hint(&self) -> (bounds: (usize, Option<usize>)) {
        (0, None)
    }
}

impl<S: CloneSource> CloneSource for Unhinted<S> where S::Item: Clone {
    fn duplicate(&self) -> (copy: Self) {
        Unhinted { inner: self.inner.duplicate() }
    }
}

impl<S: CloneSource> Clone for Unhinted<S> where S::Item: Clone {
    fn clone(&self) -> (copy: Self)
        ensures
            self.obeys() ==> copy.obeys() && clones(self.pending(), copy.pending()),
    {
        self.duplicate()
    }
}

/// A source that never ends: it gives one item over and over.
#[derive(Debug)]
pub struct Repeat<T: Copy> {
    item: T,
}

impl<T: Copy> Repeat<T> {
    /// A source that gives `item` for ever.
    pub fn new(item: T) -> (source: Self)
        ensures
            source.endless(),
            forall|i: int| #[trigger] source.upcoming(i) == item,
    {
        Repeat { item }
    }
}

impl<T: Copy> Source for Repeat<T> {
    type Item = T;

    open spec fn endless(&self) -> bool {
        true
    }

    closed spec fn upcoming(&self, i: int) -> T {
        self.item
    }

    fn next(&mut self) -> (item: Option<T>) {
        Some(self.item)
    }

    fn size_hint(&self) -> (bounds: (usize, Option<usize>)) {
        (usize::MAX, None)
    }
}

impl<T: Copy> CloneSource for Repeat<T> {
    fn duplicate(&self) -> (copy: Self)
        ensures
            forall|i: int| #[trigger] copy.upcoming(i) == self.upcoming(i),
    {
        Repeat { item: self.item }
    }
}

impl<T: Copy> Clone for Repeat<T> {
    fn clone(&self) -> (copy: Self)
        ensures
            forall|i: int| #[trigger] copy.upcoming(i) == self.upcoming(i),
    {
        self.duplicate()
    }
}

} // verus!
