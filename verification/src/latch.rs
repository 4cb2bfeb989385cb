//! The concurrency latch: a reader-writer exclusion discipline.
//!
//! Reads may share the latch; a write requires it exclusively. The state
//! machine is the decision core: an enclosing runtime performs the actual
//! blocking, retrying or timing out, and consults these transitions to learn
//! whether access is granted. Exclusion is structural: the state carries
//! either a reader count or the one writer, never both, and the transition
//! contracts below pin every grant and refusal, so a write can never be
//! granted while a read is in flight nor the other way round.

use vstd::prelude::*;

use crate::error::DictError;

verus! {

/// The observable state of the latch.
#[derive(Clone, Copy, PartialEq, Eq, Structural, Debug)]
pub enum LatchState {
    /// Nobody holds the latch.
    Idle,
    /// `readers` readers hold shared access; no writer is active.
    Reading { readers: usize },
    /// One writer holds exclusive access; no reader is active.
    Writing,
}

/// The latch itself: the single handle through which all access to the shared
/// store is serialized.
pub struct Latch {
    state: LatchState,
}

impl View for Latch {
    type V = LatchState;

    closed spec fn view(&self) -> LatchState {
        self.state
    }
}

impl Latch {
    /// A well-formed latch never records a reading state with zero readers.
    pub open spec fn wf(&self) -> bool {
        self@ matches LatchState::Reading { readers } ==> readers >= 1
    }

    /// A fresh latch, held by nobody.
    pub fn new() -> (g: Latch)
        ensures
            g.wf(),
            g@ == LatchState::Idle,
    {
        Latch { state: LatchState::Idle }
    }

    /// Ask for shared access. Granted whenever no writer is active (and the
    /// reader count has room); each grant admits one more concurrent reader.
    /// A refusal leaves the latch unchanged.
    pub fn try_acquire_read(&mut self) -> (granted: bool)
        requires
            old(self).wf(),
        ensures
            final(self).wf(),
            old(self)@ is Idle ==> granted && final(self)@ == (LatchState::Reading {
                readers: 1usize,
            }),
            old(self)@ matches LatchState::Reading { readers } ==> {
                &&& readers < usize::MAX ==> granted && final(self)@ == (LatchState::Reading {
                    readers: (readers + 1) as usize,
                })
                &&& readers == usize::MAX ==> !granted && final(self)@ == old(self)@
            },
            old(self)@ is Writing ==> !granted && final(self)@ == old(self)@,
    {
        match self.state {
            LatchState::Idle => {
                self.state = LatchState::Reading { readers: 1 };
                true
            },
            LatchState::Reading { readers } => {
                if readers < usize::MAX {
                    self.state = LatchState::Reading { readers: readers + 1 };
                    true
                } else {
                    false
                }
            },
            LatchState::Writing => false,
        }
    }

    /// Give shared access back: one reader leaves; the last one out returns
    /// the latch to idle.
    pub fn release_read(&mut self)
        requires
            old(self).wf(),
            old(self)@ is Reading,
        ensures
            final(self).wf(),
            old(self)@ matches LatchState::Reading { readers } ==> {
                &&& readers == 1 ==> final(self)@ == LatchState::Idle
                &&& readers > 1 ==> final(self)@ == (LatchState::Reading {
                    readers: (readers - 1) as usize,
                })
            },
    {
        match self.state {
            LatchState::Reading { readers } => {
                if readers == 1 {
                    self.state = LatchState::Idle;
                } else {
                    self.state = LatchState::Reading { readers: readers - 1 };
                }
            },
            _ => {
                proof {
                    assert(false);
                }
            },
        }
    }

    /// Ask for exclusive access. Granted exactly when nobody holds the latch:
    /// never while a reader or another writer is active. A refusal leaves
    /// the latch unchanged.
    pub fn try_acquire_write(&mut self) -> (granted: bool)
        requires
            old(self).wf(),
        ensures
            final(self).wf(),
            granted <==> old(self)@ is Idle,
            granted ==> final(self)@ == LatchState::Writing,
            !granted ==> final(self)@ == old(self)@,
    {
        match self.state {
            LatchState::Idle => {
                self.state = LatchState::Writing;
                true
            },
            _ => false,
        }
    }

    /// Give exclusive access back.
    pub fn release_write(&mut self)
        requires
            old(self).wf(),
            old(self)@ is Writing,
        ensures
            final(self).wf(),
            final(self)@ == LatchState::Idle,
    {
        self.state = LatchState::Idle;
    }

    /// One bounded attempt at exclusive access, for callers that must not
    /// block: a refusal is reported as `LockTimeout` so the caller can retry
    /// or give up rather than deadlock.
    pub fn acquire_write_or_timeout(&mut self) -> (r: Result<(), DictError>)
        requires
            old(self).wf(),
        ensures
            final(self).wf(),
            old(self)@ is Idle ==> r == Ok::<(), DictError>(()) && final(self)@
                == LatchState::Writing,
            !(old(self)@ is Idle) ==> r == Err::<(), DictError>(DictError::LockTimeout)
                && final(self)@ == old(self)@,
    {
        if self.try_acquire_write() {
            Ok(())
        } else {
            Err(DictError::LockTimeout)
        }
    }
}

} // verus!
