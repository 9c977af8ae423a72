//! The merge accumulator: the spill policy of the pipeline.
//!
//! Per-document indexes are folded into a running index.  When the running
//! index's size estimate reaches the spill threshold it is emitted for
//! spilling and accumulation restarts from an empty index; at input
//! exhaustion a non-empty remainder is emitted once more, an empty one is
//! dropped.  This bounds peak memory to roughly one threshold's worth of
//! index data regardless of corpus size.

use vstd::prelude::*;

use crate::codec::ser_index;
use crate::index::merge_entries;
use crate::index::EntryModel;
use crate::index::InMemoryIndex;

verus! {

/// The accumulating stage, holding the running index and the configured
/// spill threshold in bytes.
pub struct MergeAccumulator {
    pub current: InMemoryIndex,
    pub threshold: u64,
}

impl MergeAccumulator {
    pub open spec fn wf(self) -> bool {
        self.current.wf()
    }

    /// An empty accumulator with the given spill threshold in bytes.
    pub fn new(threshold: u64) -> (r: MergeAccumulator)
        ensures
            r.wf(),
            r.current.model() == Seq::<EntryModel>::empty(),
            r.threshold == threshold,
    {
        MergeAccumulator { current: InMemoryIndex::new(), threshold: threshold }
    }

    /// Folds one per-document index into the running index.  Exactly when
    /// the merged index's size estimate reaches the threshold it is emitted
    /// and accumulation restarts empty; below the threshold nothing is
    /// emitted and the merged index keeps accumulating.
    pub fn push(&mut self, doc_index: InMemoryIndex) -> (r: Option<InMemoryIndex>)
        requires
            old(self).wf(),
            doc_index.wf(),
        ensures
            final(self).wf(),
            final(self).threshold == old(self).threshold,
            ({
                let merged = merge_entries(old(self).current.model(), doc_index.model());
                if ser_index(merged).len() >= old(self).threshold {
                    r is Some && r.unwrap().wf() && r.unwrap().model() == merged
                        && final(self).current.model() == Seq::<EntryModel>::empty()
                } else {
                    r is None && final(self).current.model() == merged
                }
            }),
    {
        self.current.merge(doc_index);
        if self.current.is_large(self.threshold) {
            let mut out = InMemoryIndex::new();
            core::mem::swap(&mut out, &mut self.current);
            Some(out)
        } else {
            None
        }
    }

    /// At input exhaustion: emits the non-empty remainder once more, and
    /// drops an empty one rather than spilling a vacuous trailing segment.
    pub fn finish(self) -> (r: Option<InMemoryIndex>)
        requires
            self.wf(),
        ensures
            self.current.model().len() == 0 ==> r is None,
            self.current.model().len() > 0 ==> r is Some && r.unwrap().wf() && r.unwrap().model()
                == self.current.model(),
    {
        if self.current.is_empty() {
            None
        } else {
            Some(self.current)
        }
    }
}

} // verus!
