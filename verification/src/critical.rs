//! Critical-section backend: a vector stack of free indices whose updates run
//! inside `critical_section::with`.
//!
//! Each `take` / `put` / `fill` moves the stack out of `self`, updates it in a
//! closure run by `critical_section::with`, and stores it back. Exclusion comes
//! from the `&mut self` borrow, so the critical section guards nothing that
//! the borrow does not already guard. This is the default backend of the pools.

use crate::free_slots::{
    ascending_indices, lemma_pop_keeps_valid, popped, valid_free_stack, FillError, FreeSlots,
};
use vstd::prelude::*;

verus! {

/// Runs `f` inside a critical section and returns what it returned.
///
/// Trusted: `critical_section::with` acquires the critical section, calls the
/// closure it is given exactly once, releases the section and returns the
/// closure's result. The contract claims just that: `f`'s precondition is
/// owed and its postcondition holds of the result.
#[verifier::external_body]
fn with_critical_section<R, F: FnOnce() -> R>(f: F) -> (r: R)
    requires
        f.requires(()),
    ensures
        f.ensures((), r),
{
    critical_section::with(|_cs| f())
}

/// Free-slot stack of at most `N` indices, kept in a vector.
///
/// Like a bounded vector it accepts any index in `put` while it has room and
/// ignores a `put` onto a full stack; the pools only ever give back indices
/// below `N` that are not free.
pub struct CriticalSlots<const N: usize> {
    /// The free indices, bottom first; the top is the last element.
    inner: Vec<usize>,
}

/// Empty `stack`, then push `0..count` in ascending order.
fn refill(stack: Vec<usize>, count: usize) -> (r: Vec<usize>)
    ensures
        r@ == ascending_indices(count as nat),
{
    let mut stack = stack;
    stack.clear();
    let mut i: usize = 0;
    while i < count
        invariant
            i <= count,
            stack@ == ascending_indices(i as nat),
        decreases count - i,
    {
        stack.push(i);
        i = i + 1;
        proof {
            assert(stack@ =~= ascending_indices(i as nat));
        }
    }
    stack
}

/// Pop the top of `stack`, handing back the rest.
fn pop_top(stack: Vec<usize>) -> (r: (Vec<usize>, Option<usize>))
    ensures
        popped(stack@, r.0@, r.1),
{
    let mut stack = stack;
    let top = stack.pop();
    (stack, top)
}

/// The stack `before` after an attempt to push `idx` onto it with room for
/// `cap` indices: pushed when there is room, unchanged when it is full.
pub open spec fn bounded_push(before: Seq<usize>, idx: usize, cap: usize) -> Seq<usize> {
    if before.len() < cap {
        before.push(idx)
    } else {
        before
    }
}

/// Push `idx` on top of `stack` if it holds fewer than `cap` indices; a push
/// onto a full stack is dropped.
fn push_top(stack: Vec<usize>, idx: usize, cap: usize) -> (r: Vec<usize>)
    ensures
        r@ == bounded_push(stack@, idx, cap),
{
    let mut stack = stack;
    if stack.len() < cap {
        stack.push(idx);
    }
    stack
}

impl<const N: usize> CriticalSlots<N> {
    /// Create an empty collection.
    pub fn new() -> (s: Self)
        ensures
            s.wf(),
            s.stack() == Seq::<usize>::empty(),
    {
        CriticalSlots { inner: Vec::new() }
    }

    /// Move the stack out, leaving an empty one in its place.
    fn take_inner(&mut self) -> (r: Vec<usize>)
        ensures
            r@ == old(self).inner@,
            final(self).inner@ == Seq::<usize>::empty(),
    {
        let mut out: Vec<usize> = Vec::new();
        core::mem::swap(&mut out, &mut self.inner);
        out
    }
}

impl<const N: usize> FreeSlots<N> for CriticalSlots<N> {
    closed spec fn wf(&self) -> bool {
        self.inner@.len() <= N
    }

    closed spec fn stack(&self) -> Seq<usize> {
        self.inner@
    }

    /// Any index is accepted, as by a bounded vector's `push`.
    closed spec fn put_admits(&self, idx: usize) -> bool {
        true
    }

    proof fn lemma_put_admits(&self, idx: usize) {
    }

    fn new() -> (s: Self) {
        CriticalSlots::new()
    }

    fn fill(&mut self, count: usize) -> (r: Result<(), FillError>) {
        if count > N {
            return Err(FillError);
        }
        let stack = self.take_inner();
        let op = move || -> (out: Vec<usize>)
            ensures
                out@ == ascending_indices(count as nat),
            { refill(stack, count) };
        let filled = with_critical_section(op);
        self.inner = filled;
        Ok(())
    }

    fn take(&mut self) -> (r: Option<usize>) {
        let stack = self.take_inner();
        let ghost before = stack@;
        let op = move || -> (out: (Vec<usize>, Option<usize>))
            ensures
                popped(before, out.0@, out.1),
            { pop_top(stack) };
        let (rest, top) = with_critical_section(op);
        self.inner = rest;
        proof {
            if before.len() > 0 && valid_free_stack(before, N) {
                lemma_pop_keeps_valid(before, N);
            }
        }
        top
    }

    fn put(&mut self, idx: usize) {
        let stack = self.take_inner();
        let ghost before = stack@;
        let op = move || -> (out: Vec<usize>)
            ensures
                out@ == bounded_push(before, idx, N),
            { push_top(stack, idx, N) };
        let pushed = with_critical_section(op);
        self.inner = pushed;
    }
}

} // verus!
