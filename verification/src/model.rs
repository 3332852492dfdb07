//! The mathematical model of the enumerator.
//!
//! An enumerator's state is a sequence of frames, one per choice point of the
//! most recent run.  Each frame is a pair `(value, bound)`: the value the
//! choice point currently takes, and the largest value it may take.  The
//! executable type [`crate::Gen`] views to a [`GenView`], and every operation
//! on it is pinned, in its `ensures`, to one of the spec transitions below.

use vstd::prelude::*;

verus! {

/// Abstract state of an enumerator: whether the first `done` call has
/// happened, the recorded frames, and the cursor marking the next frame the
/// run in progress will read or create.
///
/// In a frame `(value, bound)`, `.0` is the value the choice point takes in
/// the current run and `.1` is the bound most recently requested for it.
#[verifier::ext_equal]
pub ghost struct GenView {
    pub started: bool,
    pub frames: Seq<(usize, usize)>,
    pub cursor: int,
}

impl GenView {
    /// The state of a freshly constructed enumerator: not started, no frames.
    pub open spec fn init() -> GenView {
        GenView { started: false, frames: Seq::empty(), cursor: 0 }
    }

    /// Structural invariant: the cursor never runs past the recorded frames.
    pub open spec fn wf(self) -> bool {
        0 <= self.cursor <= self.frames.len()
    }

    /// The value the next `gen` call will return: the value recorded at the
    /// cursor's frame, or 0 when the cursor points past the recorded frames
    /// (a choice point not yet visited opens at 0).
    pub open spec fn next_val(self) -> usize {
        if self.cursor < self.frames.len() {
            self.frames[self.cursor].0
        } else {
            0
        }
    }

    /// State after one `gen(bound)` call: a fresh frame `(0, bound)` is
    /// pushed when the cursor is at the end, otherwise the existing frame
    /// keeps its value and has its bound overwritten; the cursor advances.
    pub open spec fn step_gen(self, bound: usize) -> GenView {
        let frames = if self.cursor == self.frames.len() {
            self.frames.push((0usize, bound))
        } else {
            self.frames.update(self.cursor, (self.frames[self.cursor].0, bound))
        };
        GenView { started: self.started, frames, cursor: self.cursor + 1 }
    }

    /// Whether the enumeration is finished: it has started and every frame is
    /// at its bound, so no choice point has unexplored values left.
    pub open spec fn is_done(self) -> bool {
        self.started && live_frame(self.frames) == -1
    }

    /// State after one `done` call.  The first call only marks the start.
    /// Later calls step the odometer: the rightmost frame with unexplored
    /// values is incremented, the frames after it are discarded, and the
    /// cursor returns to the front; when no such frame exists nothing moves.
    pub open spec fn step_done(self) -> GenView {
        if !self.started {
            GenView { started: true, frames: self.frames, cursor: self.cursor }
        } else {
            let i = live_frame(self.frames);
            if i == -1 {
                self
            } else {
                let f = self.frames[i];
                GenView {
                    started: true,
                    frames: self.frames.take(i + 1).update(i, ((f.0 + 1) as usize, f.1)),
                    cursor: 0,
                }
            }
        }
    }
}

/// Index of the rightmost frame whose value is still below its bound, or -1
/// when every frame is saturated.
pub open spec fn live_frame(frames: Seq<(usize, usize)>) -> int
    decreases frames.len(),
{
    if frames.len() == 0 {
        -1
    } else if frames.last().0 < frames.last().1 {
        frames.len() - 1
    } else {
        live_frame(frames.drop_last())
    }
}

/// No frame is live exactly when every frame is at its bound.
pub proof fn lemma_live_frame_none(frames: Seq<(usize, usize)>)
    ensures
        live_frame(frames) == -1 <==> (forall|i: int|
            0 <= i < frames.len() ==> (#[trigger] frames[i]).0 >= frames[i].1),
    decreases frames.len(),
{
    if frames.len() > 0 {
        lemma_live_frame_none(frames.drop_last());
        if live_frame(frames) == -1 {
            assert forall|i: int| 0 <= i < frames.len() implies (#[trigger] frames[i]).0
                >= frames[i].1 by {
                if i < frames.len() - 1 {
                    assert(frames.drop_last()[i] == frames[i]);
                }
            }
        }
        if forall|i: int| 0 <= i < frames.len() ==> (#[trigger] frames[i]).0 >= frames[i].1 {
            assert forall|i: int|
                0 <= i < frames.drop_last().len() implies (#[trigger] frames.drop_last()[i]).0
                >= frames.drop_last()[i].1 by {
                assert(frames.drop_last()[i] == frames[i]);
            }
            assert(live_frame(frames.drop_last()) == -1);
        }
    }
}

/// `live_frame` always names a frame with unexplored values, or -1.
pub proof fn lemma_live_frame_bounds(frames: Seq<(usize, usize)>)
    ensures
        -1 <= live_frame(frames) < frames.len(),
        live_frame(frames) >= 0 ==> frames[live_frame(frames)].0 < frames[live_frame(frames)].1,
        forall|j: int|
            live_frame(frames) < j < frames.len() ==> (#[trigger] frames[j]).0 >= frames[j].1,
    decreases frames.len(),
{
    if frames.len() > 0 && frames.last().0 >= frames.last().1 {
        lemma_live_frame_bounds(frames.drop_last());
        assert forall|j: int|
            live_frame(frames) < j < frames.len() implies (#[trigger] frames[j]).0
            >= frames[j].1 by {
            if j < frames.len() - 1 {
                assert(frames.drop_last()[j] == frames[j]);
            }
        }
    }
}

} // verus!
