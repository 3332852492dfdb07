//! The enumerator and its two primitives, `done` and `gen`, together with the
//! basic combinators `flip` and `pick`.

use crate::model::{live_frame, GenView};
use vstd::prelude::*;

verus! {

/// An exhaustive enumerator of bounded choices.
///
/// Create one per test, call [`Gen::done`] at the head of a `while` loop, and
/// inside the loop request values with [`Gen::gen`] and the combinators.  The
/// loop body must request its choices in a stable order: the bounds asked for
/// at a given position may only depend on the values handed out earlier in
/// the same run.
pub struct Gen {
    started: bool,
    v: Vec<(usize, usize)>,
    p: usize,
}

impl View for Gen {
    type V = GenView;

    closed spec fn view(&self) -> GenView {
        GenView { started: self.started, frames: self.v@, cursor: self.p as int }
    }
}

impl Gen {
    /// A fresh enumerator: not started, no frames recorded.
    pub fn new() -> (g: Gen)
        ensures
            g@ == GenView::init(),
    {
        let g = Gen { started: false, v: Vec::new(), p: 0 };
        proof {
            assert(g@ =~= GenView::init());
        }
        g
    }

    /// Returns `true` when every range of values implied by calls to `gen` is
    /// finished.  Otherwise restarts the innermost incomplete range,
    /// continuing the exhaustive scan.  Call this in the head of a `while`
    /// loop enclosing the test body to repeat exhaustively.
    pub fn done(&mut self) -> (r: bool)
        requires
            old(self)@.wf(),
        ensures
            final(self)@ == old(self)@.step_done(),
            r == old(self)@.is_done(),
            final(self)@.wf(),
            final(self)@.started,
    {
        if !self.started {
            self.started = true;
            proof {
                assert(self@ =~= old(self)@.step_done());
            }
            return false;
        }

        let mut i: usize = self.v.len();
        proof {
            assert(self.v@.take(i as int) =~= self.v@);
        }
        while i > 0
            invariant
                *self == *old(self),
                self@.started,
                i <= self.v.len(),
                live_frame(self.v@) == live_frame(self.v@.take(i as int)),
            decreases i,
        {
            i = i - 1;
            let (c, b) = self.v[i];
            if c < b {
                proof {
                    assert(self.v@.take(i + 1).last() == self.v@[i as int]);
                    assert(live_frame(self.v@.take(i + 1)) == i);
                }
                let cur = self.v[i];
                self.v.set(i, (cur.0 + 1, cur.1));
                self.v.truncate(i + 1);
                self.p = 0;
                proof {
                    assert(self@.frames =~= old(self)@.frames.take(i + 1).update(
                        i as int,
                        ((old(self)@.frames[i as int].0 + 1) as usize, old(self)@.frames[i as int].1),
                    ));
                    assert(self@ =~= old(self)@.step_done());
                }
                return false;
            }
            proof {
                assert(self.v@.take(i + 1).last() == self.v@[i as int]);
                assert(self.v@.take(i + 1).drop_last() =~= self.v@.take(i as int));
            }
        }
        proof {
            assert(self.v@.take(0) =~= Seq::<(usize, usize)>::empty());
            assert(live_frame(self.v@) == -1);
        }
        true
    }

    /// Returns a value (eventually every value) between 0 and `bound`
    /// inclusive.  Every other value-generating method funnels into this one,
    /// which is responsible, in concert with `done`, for opening and stepping
    /// through the ranges of the enumerator's state space.
    ///
    /// A choice point not yet visited opens a fresh frame and yields 0; a
    /// revisited one keeps the value `done` steered it to and records the
    /// bound passed this call.  The result stays within `bound` whenever the
    /// run asks for bounds in the stable order described on [`Gen`]; the
    /// `ensures` states the exact value either way.
    pub fn gen(&mut self, bound: usize) -> (r: usize)
        requires
            old(self)@.wf(),
        ensures
            final(self)@ == old(self)@.step_gen(bound),
            r == old(self)@.next_val(),
            final(self)@.wf(),
    {
        if self.p == self.v.len() {
            self.v.push((0, 0));
        }
        let n = self.v.len();
        let i = self.p;
        proof {
            // The cursor indexes a frame, so advancing it stays within usize.
            assert(i < n);
        }
        let cur = self.v[i].0;
        self.v.set(i, (cur, bound));
        self.p = i + 1;
        proof {
            assert(self@ =~= old(self)@.step_gen(bound));
        }
        cur
    }

    /// Produces `false`, then `true`, across the enumeration of this point.
    pub fn flip(&mut self) -> (r: bool)
        requires
            old(self)@.wf(),
        ensures
            final(self)@ == old(self)@.step_gen(1),
            r == (old(self)@.next_val() == 1),
            final(self)@.wf(),
    {
        self.gen(1) == 1
    }

    /// Selects an element (eventually every element) from `input`.
    ///
    /// `input` must be non-empty, and the frame under the cursor, if one is
    /// left over from the previous run, must hold a value that indexes into
    /// `input`; both hold for a loop body that requests its choices in a
    /// stable order.
    pub fn pick<'a, T>(&mut self, input: &'a [T]) -> (r: &'a T)
        requires
            old(self)@.wf(),
            input.len() >= 1,
            old(self)@.next_val() < input@.len(),
        ensures
            final(self)@ == old(self)@.step_gen((input.len() - 1) as usize),
            *r == input@[old(self)@.next_val() as int],
            final(self)@.wf(),
    {
        let j = self.gen(input.len() - 1);
        &input[j]
    }
}

} // verus!
