//! A bounded-memory inverted-index builder.
//!
//! Documents are tokenized into single-document indexes, merged into a
//! running in-memory index until a size threshold is crossed, spilled as
//! sorted serialized segments, and finally combined by a k-way merge into
//! one consolidated index.  The crate also carries two small companion
//! structures: a URL router and an in-order binary-tree iterator.

use vstd::prelude::*;

pub mod accumulator;
pub mod codec;
pub mod index;
pub mod order;
pub mod pipeline;
pub mod router;
pub mod tree;

verus! {

/// The failure taxonomy of the indexing pipeline.
///
/// `Read` marks a single unreadable source document (recoverable: the
/// document is skipped).  `Write` marks a failed segment or final-index
/// write (fatal).  `Format` marks a segment that breaks the sort or
/// structure invariant of the on-disk format (fatal for the merge).
/// `ChannelClosed` marks a pipeline peer that terminated early; it is used
/// by the surrounding program to unwind and is never user-visible.
#[derive(Clone, Copy, Debug, PartialEq, Eq, Structural)]
pub enum IndexError {
    Read,
    Write,
    Format,
    ChannelClosed,
}

} // verus!
