//! A buffer that draws from a source only as far as it is asked to.

use crate::binomial::as_count;
use crate::source::{clones, CloneSource, Source};
use vstd::prelude::*;

verus! {

/// Bounds on a number of items, moved up by `drawn`. The lower bound
/// saturates; the upper bound is unknown when it does not fit.
pub open spec fn raised(bounds: (usize, Option<usize>), drawn: nat) -> (usize, Option<usize>) {
    (
        if bounds.0 + drawn > usize::MAX {
            usize::MAX
        } else {
            (bounds.0 + drawn) as usize
        },
        match bounds.1 {
            Some(high) => as_count(high as nat + drawn),
            None => None,
        },
    )
}

/// The number of items drawn once a buffer that holds `drawn` of `all`
/// items has been asked to hold `wanted`: nothing is drawn that is not
/// asked for, and nothing can be drawn beyond the end.
pub open spec fn drawn_up_to(drawn: nat, wanted: nat, all: nat) -> nat {
    if wanted <= drawn {
        drawn
    } else if wanted <= all {
        wanted
    } else {
        all
    }
}

/// The items of a source: those already drawn, kept in order, and behind
/// them those that the source has yet to give. Once the source has given
/// `None` the buffer asks it no more.
#[derive(Debug)]
pub struct LazyBuffer<S: Source> {
    source: S,
    done: bool,
    buffer: Vec<S::Item>,
}

impl<S: Source> LazyBuffer<S> {
    /// The items drawn so far.
    pub closed spec fn buffered(&self) -> Seq<S::Item> {
        self.buffer@
    }

    /// The source as it stands, behind the items drawn.
    pub closed spec fn source(&self) -> S {
        self.source
    }

    /// Whether the source has been found dry.
    pub closed spec fn dry(&self) -> bool {
        self.done
    }

    /// Whether the source keeps to its model.
    pub open spec fn obeys(&self) -> bool {
        self.source().obeys()
    }

    /// Whether the source never ends and keeps to the model of such a
    /// source.
    pub open spec fn endless(&self) -> bool {
        self.source().endless()
    }

    /// The `i`-th of all the items of a source that never ends: drawn
    /// already, or the source has yet to give it. Drawing does not change
    /// it.
    pub open spec fn stream(&self, i: int) -> S::Item {
        if i < self.buffered().len() {
            self.buffered()[i]
        } else {
            self.source().upcoming(i - self.buffered().len())
        }
    }

    /// Whether this buffer holds the items that `earlier` held, and perhaps
    /// more behind them: what is drawn stays.
    pub open spec fn keeps(&self, earlier: &Self) -> bool {
        &&& earlier.buffered().len() <= self.buffered().len()
        &&& self.buffered().take(earlier.buffered().len() as int) == earlier.buffered()
    }

    /// Whether `later` holds the same items as this buffer, index by index.
    pub open spec fn same_stream(&self, later: &Self) -> bool {
        forall|i: int| 0 <= i ==> self.stream(i) == #[trigger] later.stream(i)
    }

    /// Whether `copy` holds a clone of each item of this buffer, index by
    /// index.
    pub open spec fn cloned_stream(&self, copy: &Self) -> bool where S::Item: Clone {
        forall|i: int| 0 <= i ==> cloned::<S::Item>(self.stream(i), #[trigger] copy.stream(i))
    }

    /// The invariant of the buffer: a source that keeps to its model and
    /// was found dry has nothing pending, and one that never ends is never
    /// found dry.
    pub open spec fn inv(&self) -> bool {
        &&& self.dry() && self.obeys() ==> self.pending().len() == 0
        &&& self.endless() ==> !self.dry()
    }

    /// The items not yet drawn.
    pub open spec fn pending(&self) -> Seq<S::Item> {
        self.source().pending()
    }

    /// All the items, drawn or not. Drawing does not change them.
    pub open spec fn items(&self) -> Seq<S::Item> {
        self.buffered() + self.pending()
    }

    /// The bounds on the number of all items that `size_hint` reports: those
    /// of the source, moved up by the number of items drawn.
    pub open spec fn hint(&self) -> (usize, Option<usize>) {
        raised(self.source().hint(), self.buffered().len())
    }

    /// A buffer keeps what it holds.
    pub proof fn lemma_keeps_itself(&self)
        ensures
            self.keeps(self),
    {
        assert(self.buffered().take(self.buffered().len() as int) =~= self.buffered());
    }

    /// The items drawn are held in memory, so their number fits in `usize`.
    pub proof fn lemma_buffered_fits(&self)
        ensures
            self.buffered().len() <= usize::MAX,
    {
        assert(self.buffer@.len() == self.buffer.len());
    }

    /// A buffer over `source` with nothing drawn yet.
    pub fn new(source: S) -> (buffer: Self)
        ensures
            buffer.buffered() == Seq::<S::Item>::empty(),
            buffer.source() == source,
            !buffer.dry(),
    {
        LazyBuffer { source, done: false, buffer: Vec::new() }
    }

    /// The number of items drawn so far.
    pub fn len(&self) -> (len: usize)
        ensures
            len == self.buffered().len(),
    {
        self.buffer.len()
    }

    /// Bounds on the number of all items, drawn or not. Whatever the
    /// source reports, they are not below the number of items drawn.
    pub fn size_hint(&self) -> (bounds: (usize, Option<usize>))
        ensures
            self.buffered().len() <= bounds.0,
            bounds.1 matches Some(upper) ==> self.buffered().len() <= upper,
            self.endless() ==> bounds.1 is None,
            self.obeys() ==> {
                &&& bounds == self.hint()
                &&& bounds.0 <= self.items().len()
                &&& bounds.1 matches Some(upper) ==> self.items().len() <= upper
            },
    {
        let (low, high) = self.source.size_hint();
        let drawn = self.buffer.len();
        let high = match high {
            Some(h) => h.checked_add(drawn),
            None => None,
        };
        (low.saturating_add(drawn), high)
    }

    /// The number of all items, found by walking the source to its end;
    /// `None` when it does not fit in `usize`. The walk ends there at the
    /// latest, whatever the source.
    pub fn count(self) -> (count: Option<usize>)
        requires
            self.inv(),
        ensures
            count matches Some(n) ==> self.buffered().len() <= n,
            self.endless() ==> count is None,
            self.obeys() ==> count == as_count(self.items().len()),
    {
        let mut source = self.source;
        let mut total: usize = self.buffer.len();
        if self.done {
            return Some(total);
        }
        while total < usize::MAX
            invariant
                self.buffered().len() <= total,
                source.endless() == self.endless(),
                self.obeys() ==> source.obeys() && total + source.pending().len()
                    == self.items().len(),
            decreases usize::MAX - total,
        {
            match source.next() {
                Some(_) => {
                    total += 1;
                },
                None => {
                    return Some(total);
                },
            }
        }
        // As many items as `usize` can count: one more is too many.
        match source.next() {
            Some(_) => None,
            None => Some(total),
        }
    }

    /// Draws one more item if the source has one, and says whether it did.
    /// A source that was found dry is not asked again.
    pub fn get_next(&mut self) -> (drawn: bool)
        requires
            old(self).inv(),
        ensures
            final(self).inv(),
            final(self).buffered().len() == old(self).buffered().len() + if drawn {
                1int
            } else {
                0int
            },
            final(self).keeps(old(self)),
            final(self).dry() == !drawn,
            old(self).dry() ==> !drawn,
            final(self).endless() == old(self).endless(),
            old(self).endless() ==> drawn && old(self).same_stream(final(self)),
            old(self).obeys() ==> {
                &&& final(self).obeys()
                &&& final(self).items() == old(self).items()
                &&& drawn == (old(self).pending().len() > 0)
            },
    {
        if self.done {
            assert(self.buffer@.take(self.buffer@.len() as int) =~= self.buffer@);
            return false;
        }
        match self.source.next() {
            Some(item) => {
                self.buffer.push(item);
                assert(self.buffer@.take(old(self).buffer@.len() as int) =~= old(self).buffer@);
                assert(old(self).obeys() ==> self.items() =~= old(self).items());
                assert(old(self).endless() ==> old(self).same_stream(self)) by {
                    if old(self).endless() {
                        assert forall|i: int| 0 <= i implies old(self).stream(i)
                            == #[trigger] self.stream(i) by {
                            let drawn = old(self).buffer@.len();
                            if i > drawn {
                                assert(self.source.upcoming(i - drawn - 1) == old(
                                    self,
                                ).source.upcoming(i - drawn - 1 + 1));
                            }
                        }
                    }
                }
                true
            },
            None => {
                self.done = true;
                assert(self.buffer@.take(self.buffer@.len() as int) =~= self.buffer@);
                false
            },
        }
    }

    /// Draws until `len` items are buffered or the source is dry.
    pub fn prefill(&mut self, len: usize)
        requires
            old(self).inv(),
        ensures
            final(self).inv(),
            final(self).keeps(old(self)),
            final(self).buffered().len() <= len || final(self).buffered().len() == old(
                self,
            ).buffered().len(),
            final(self).buffered().len() >= len || final(self).dry(),
            old(self).dry() ==> final(self).dry() && final(self).buffered().len() == old(
                self,
            ).buffered().len(),
            final(self).endless() == old(self).endless(),
            old(self).endless() ==> {
                &&& old(self).same_stream(final(self))
                &&& final(self).buffered().len() >= len
            },
            old(self).obeys() ==> {
                &&& final(self).obeys()
                &&& final(self).items() == old(self).items()
                &&& final(self).buffered().len() == drawn_up_to(
                    old(self).buffered().len(),
                    len as nat,
                    old(self).items().len(),
                )
            },
    {
        assert(self.buffer@.take(self.buffer@.len() as int) =~= self.buffer@);
        while self.buffer.len() < len
            invariant
                self.inv(),
                self.keeps(old(self)),
                self.buffered().len() <= len || self.buffered().len() == old(
                    self,
                ).buffered().len(),
                old(self).dry() ==> self.dry() && self.buffered().len() == old(
                    self,
                ).buffered().len(),
                old(self).obeys() ==> self.obeys() && self.items() == old(self).items(),
                self.endless() == old(self).endless(),
                old(self).endless() ==> old(self).same_stream(self),
            ensures
                self.buffered().len() >= len || self.dry(),
                old(self).obeys() ==> self.buffered().len() >= len || self.pending().len() == 0,
            decreases len - self.buffer.len(),
        {
            let ghost before = *self;
            let drawn = self.get_next();
            assert(self.buffered().take(old(self).buffered().len() as int) =~= old(
                self,
            ).buffered()) by {
                assert(before.buffered() =~= self.buffered().take(before.buffered().len() as int));
                assert(old(self).buffered() =~= before.buffered().take(
                    old(self).buffered().len() as int,
                ));
            }
            if !drawn {
                break ;
            }
        }
    }

    /// The buffered item at position `i`.
    pub fn get(&self, i: usize) -> (item: &S::Item)
        requires
            i < self.buffered().len(),
        ensures
            *item == self.buffered()[i as int],
            *item == self.items()[i as int],
    {
        &self.buffer[i]
    }
}

impl<S: CloneSource> Clone for LazyBuffer<S> where S::Item: Clone {
    /// A buffer with clones of the same items, as many of them drawn.
    fn clone(&self) -> (copy: Self)
        ensures
            self.inv() ==> copy.inv(),
            clones(self.buffered(), copy.buffered()),
            copy.dry() == self.dry(),
            copy.endless() == self.endless(),
            self.endless() ==> self.cloned_stream(&copy),
            self.obeys() ==> {
                &&& copy.obeys()
                &&& clones(self.items(), copy.items())
                &&& copy.source().hint() == self.source().hint()
            },
    {
        let copy = LazyBuffer {
            source: self.source.duplicate(),
            done: self.done,
            buffer: self.buffer.clone(),
        };
        proof {
            assert(self.buffer@.len() == self.buffer.len());
            assert(copy.buffer@.len() == copy.buffer.len());
            if self.obeys() {
                assert forall|i: int| 0 <= i < self.items().len() implies cloned::<S::Item>(
                    self.items()[i],
                    #[trigger] copy.items()[i],
                ) by {
                    if i < self.buffer@.len() {
                        assert(self.items()[i] == self.buffer@[i]);
                        assert(copy.items()[i] == copy.buffer@[i]);
                    } else {
                        assert(self.items()[i] == self.pending()[i - self.buffer@.len()]);
                        assert(copy.items()[i] == copy.pending()[i - self.buffer@.len()]);
                    }
                }
            }
        }
        copy
    }
}

} // verus!
