//! The hot-reload decision model. The surrounding layer polls the source
//! dataset's modification timestamp on a fixed interval and owns the
//! published index generation behind a reader-writer guard; this module
//! decides, from the observed timestamp alone, whether a rebuild is due.
//!
//! A rebuild happens entirely off to the side: the replacement generation is
//! a fully built index (`build_table` leaves no partial state), and
//! publication replaces the whole generation value at once, so a reader
//! observes either the old or the new generation, never a mix. The observed
//! timestamp is recorded only after a successful publication, so a failed
//! build leaves both the served generation and the recorded timestamp
//! unchanged and the rebuild is retried on the next change.

use vstd::prelude::*;

verus! {

/// What the poll decides.
#[derive(Clone, Copy, PartialEq, Eq, Structural, Debug)]
pub enum ReloadAction {
    /// Keep serving the current generation.
    Keep,
    /// Build a replacement generation and publish it.
    Rebuild,
}

/// The reload loop's state: the source timestamp of the generation that is
/// currently published, when one has been observed.
pub struct HotReloadState {
    pub last_modified: Option<u64>,
}

impl HotReloadState {
    /// Starts from the timestamp observed at startup, if it could be read.
    pub fn new(initial: Option<u64>) -> (r: Self)
        ensures
            r.last_modified == initial,
    {
        HotReloadState { last_modified: initial }
    }

    /// One poll: a rebuild is due exactly when a timestamp was observed now,
    /// one had been recorded before, and the new one is strictly later. A
    /// first-ever observation is only recorded; an unreadable timestamp
    /// changes nothing.
    pub fn observe(&mut self, observed: Option<u64>) -> (a: ReloadAction)
        ensures
            (a is Rebuild) <==> (observed matches Some(t) && old(self).last_modified matches Some(
                l,
            ) && t > l),
            final(self).last_modified == (match (observed, old(self).last_modified) {
                (Some(t), None) => Some(t),
                _ => old(self).last_modified,
            }),
    {
        match observed {
            None => ReloadAction::Keep,
            Some(t) => match self.last_modified {
                None => {
                    self.last_modified = Some(t);
                    ReloadAction::Keep
                },
                Some(l) => {
                    if t > l {
                        ReloadAction::Rebuild
                    } else {
                        ReloadAction::Keep
                    }
                },
            },
        }
    }

    /// Records the timestamp of a generation that was built and published;
    /// called only after a successful swap, so a failed build keeps the old
    /// timestamp and the change is noticed again.
    pub fn mark_published(&mut self, t: u64)
        ensures
            final(self).last_modified == Some(t),
    {
        self.last_modified = Some(t);
    }
}

} // verus!
