//! Runtime execution context stack.
use vstd::prelude::*;
use crate::expansion::Field;

verus! {

/// Element of the runtime execution context stack.
#[derive(Clone, Debug, PartialEq, Eq)]
pub enum Frame {
    /// Built-in utility being executed.
    Builtin {
        /// Name of the built-in.
        name: Field,
    },
}

/// Runtime execution context stack: the innermost context is last.
#[derive(Clone, Debug, Default, PartialEq, Eq)]
pub struct Stack {
    inner: Vec<Frame>,
}

impl Stack {
    /// The frames, outermost first.
    pub closed spec fn view(&self) -> Seq<Frame> {
        self.inner@
    }

    /// Creates a stack of the given frames.
    pub fn from_frames(frames: Vec<Frame>) -> (r: Stack)
        ensures
            r@ == frames@,
    {
        Stack { inner: frames }
    }

    /// The frames, outermost first.
    pub fn frames(&self) -> (r: &Vec<Frame>)
        ensures
            r@ == self@,
    {
        &self.inner
    }

    /// Pushes a new frame.
    pub fn push(&mut self, frame: Frame)
        ensures
            final(self)@ == old(self)@.push(frame),
    {
        self.inner.push(frame);
    }

    /// Pops the topmost frame, which a matching [`push`](Self::push) put
    /// there.
    pub fn pop(&mut self) -> (r: Frame)
        requires
            old(self)@.len() > 0,
        ensures
            r == old(self)@.last(),
            final(self)@ == old(self)@.drop_last(),
    {
        self.inner.pop().unwrap()
    }
}

/// Execution environment, of which the runtime execution context stack is
/// the part kept here.
#[derive(Clone, Debug, Default, PartialEq, Eq)]
pub struct Env {
    /// Runtime execution context stack.
    pub stack: Stack,
}

impl Env {
    /// Pushes a new frame to the runtime execution context stack.
    pub fn push_frame(&mut self, frame: Frame)
        ensures
            final(self).stack@ == old(self).stack@.push(frame),
    {
        self.stack.push(frame);
    }

    /// Pops the topmost frame from the runtime execution context stack.
    pub fn pop_frame(&mut self) -> (r: Frame)
        requires
            old(self).stack@.len() > 0,
        ensures
            r == old(self).stack@.last(),
            final(self).stack@ == old(self).stack@.drop_last(),
    {
        self.stack.pop()
    }
}

} // verus!
