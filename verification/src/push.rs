//! Pushing a lemma to later frames: the lemma blocked at one frame is tried
//! at the next ones, in turn, while it stays inductive relative to the frame
//! before; each success may shrink it to the solver's inductive core. The
//! solver queries belong to the engine, so the push is a state machine: the
//! caller asks which frame to try next, queries its solver, and hands back
//! the answer.
use vstd::prelude::*;
use crate::lit::Lit;
use crate::litvec::LitVec;

verus! {

pub struct LemmaPush {
    cube: LitVec,
    next: usize,
    level: usize,
    stopped: bool,
}

impl LemmaPush {
    pub closed spec fn cube_view(&self) -> Seq<Lit> {
        self.cube@
    }

    /// The frame to try next.
    pub closed spec fn next_frame(&self) -> int {
        self.next as int
    }

    /// The highest frame.
    pub closed spec fn level_view(&self) -> int {
        self.level as int
    }

    /// Whether a query has failed.
    pub closed spec fn is_stopped(&self) -> bool {
        self.stopped
    }

    /// Starts pushing `cube`, blocked at `frame`, towards `level`.
    pub fn new(frame: usize, level: usize, cube: LitVec) -> (r: LemmaPush)
        requires
            frame < usize::MAX,
            level < usize::MAX,
        ensures
            r.cube_view() == cube@,
            r.next_frame() == frame + 1,
            r.level_view() == level,
            !r.is_stopped(),
    {
        LemmaPush { cube, next: frame + 1, level, stopped: false }
    }

    /// The frame to try next: the cube must be inductive relative to the
    /// frame before it. `None` once a query failed or the frames ran out.
    pub fn next_query(&self) -> (r: Option<usize>)
        ensures
            r == if !self.is_stopped() && self.next_frame() <= self.level_view() {
                Some(self.next_frame() as usize)
            } else {
                None
            },
    {
        if !self.stopped && self.next <= self.level {
            Some(self.next)
        } else {
            None
        }
    }

    /// Takes the answer for the frame of `next_query`: where the cube is
    /// inductive, it moves on, shrunk to the core where there is one;
    /// where not, the push stops there.
    pub fn on_result(&mut self, inductive: bool, core: Option<LitVec>)
        requires
            !old(self).is_stopped(),
            old(self).next_frame() <= old(self).level_view() < usize::MAX,
        ensures
            final(self).level_view() == old(self).level_view(),
            inductive ==> {
                &&& final(self).next_frame() == old(self).next_frame() + 1
                &&& !final(self).is_stopped()
                &&& final(self).cube_view() == match core {
                    Some(c) => c@,
                    None => old(self).cube_view(),
                }
            },
            !inductive ==> {
                &&& final(self).next_frame() == old(self).next_frame()
                &&& final(self).is_stopped()
                &&& final(self).cube_view() == old(self).cube_view()
            },
    {
        if inductive {
            if let Some(c) = core {
                self.cube = c;
            }
            self.next = self.next + 1;
        } else {
            self.stopped = true;
        }
    }

    /// The frame the lemma belongs before, and the lemma: the frame whose
    /// query failed, or one past the highest frame.
    pub fn result(self) -> (r: (usize, LitVec))
        requires
            self.level_view() < usize::MAX,
        ensures
            r.0 == if self.is_stopped() { self.next_frame() } else { self.level_view() + 1 },
            r.1@ == self.cube_view(),
    {
        if self.stopped {
            (self.next, self.cube)
        } else {
            (self.level + 1, self.cube)
        }
    }
}

} // verus!
