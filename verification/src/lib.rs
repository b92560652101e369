//! Lazy enumeration of the powerset of the items of a source.
//!
//! [`powerset::powerset`] turns a [`source::Source`] of `n` items into a
//! driver that gives its `2^n` subsets one at a time: the empty subset
//! first, then the subsets of one item, of two, and so on, each size in
//! lexicographic order of the positions chosen. The driver can say how many
//! subsets are still to come, as bounds without consuming anything or as an
//! exact count, and it draws items from the source only as the subsets
//! reach them.
//!
//! Giving subsets and bounds is proved to end, free of panics and of
//! overflow, over any source at all, and so is that the empty subset comes
//! first and that exhaustion lasts. What else is given is proved over the
//! sources that keep to one of the two models of a source, that of a
//! source that ends and that of a source that never ends, as those of
//! [`source`] do.
//!
//! - [`source`]: what a source is, and three sources to start from.
//! - [`lazy_buffer`]: the items of a source, drawn on demand and kept.
//! - [`binomial`]: binomial coefficients, their sums, and checked
//!   arithmetic over them.
//! - [`ranking`]: combinations as vectors of positions and the order in
//!   which they are given.
//! - [`combinations`]: the engine that gives the combinations of one size.
//! - [`powerset`]: the driver that takes the engine through all sizes.

pub mod binomial;
pub mod combinations;
pub mod lazy_buffer;
pub mod powerset;
pub mod ranking;
pub mod source;
