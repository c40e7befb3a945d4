use vstd::prelude::*;

verus! {

/// Size of a kernel stack, in bytes; its base is aligned to it as well.
pub const STACK_SIZE: usize = 0x8000;

/// A kernel stack: it grows down from `top` to `bottom`.
#[derive(Clone, Copy, PartialEq, Eq, Structural, Debug)]
pub struct Stack {
    pub top: usize,
    pub bottom: usize,
}

impl Stack {
    /// The stack over the `STACK_SIZE` bytes from `bottom`, which is
    /// aligned to `STACK_SIZE`.
    pub fn from_bottom(bottom: usize) -> (r: Stack)
        requires
            bottom % STACK_SIZE == 0,
            bottom <= usize::MAX - STACK_SIZE,
        ensures
            r.bottom == bottom,
            r.top == bottom + STACK_SIZE,
    {
        Stack { top: bottom + STACK_SIZE, bottom }
    }

    /// Whether byte `addr` lies in the stack.
    pub fn contains(&self, addr: usize) -> (r: bool)
        ensures
            r == (self.bottom <= addr < self.top),
    {
        self.bottom <= addr && addr < self.top
    }
}

} // verus!
