//! Linked-stack backend: the free indices are chained through a `next` array,
//! in the layout of a Treiber stack.
//!
//! - `next[i]` stores the index *below* node `i` in the free stack.
//! - `head` names the top of the stack; `N` (the capacity) stands for "empty".
//! - `take`: read `head`, record its `next`, make that the new `head`.
//! - `put`:  set `next[idx]` to the old `head`, make `idx` the new `head`.
//!
//! The `next` links live in their own array, not inside the slots of a pool.
//! `head` and the links are plain fields, not atomics, and there is no
//! compare-and-swap: every operation takes the backend by `&mut`, so exclusive
//! access comes from the borrow, and the links and head are updated directly.

use crate::free_slots::{
    ascending_indices, lemma_ascending_indices_valid, lemma_free_stack_has_room, lemma_pop_keeps_valid, lemma_push_keeps_valid,
    valid_free_stack, FillError, FreeSlots,
};
use vstd::prelude::*;

verus! {

/// Free-slot stack for indices below `N`, linked through a `next` array.
pub struct CasSlots<const N: usize> {
    /// `next[i]` is the index below node `i` in the free stack, or the sentinel.
    next: Vec<usize>,
    /// Stack top; `N` is the empty-stack sentinel.
    head: usize,
    /// The free indices, bottom first.
    stack: Ghost<Seq<usize>>,
}

/// `N` itself is the sentinel value (valid indices are `0..N`).
pub fn sentinel<const N: usize>() -> (r: usize)
    ensures
        r == N,
{
    N
}

/// The link that node `stack[k]` must hold: the node below it, or the sentinel
/// for the bottom node.
pub open spec fn link_below(stack: Seq<usize>, k: int, sentinel: usize) -> usize {
    if k == 0 {
        sentinel
    } else {
        stack[k - 1]
    }
}

/// The `next` array chains the free stack from its top down to the sentinel.
pub open spec fn chained(next: Seq<usize>, stack: Seq<usize>, sentinel: usize) -> bool {
    forall|k: int|
        0 <= k < stack.len() ==> next[#[trigger] stack[k] as int] == link_below(
            stack,
            k,
            sentinel,
        )
}

/// The value `fill(count)` stores in `next[i]`.
pub open spec fn filled_link(i: int, count: int, sentinel: usize) -> usize {
    if i < count {
        if i == 0 {
            sentinel
        } else {
            (i - 1) as usize
        }
    } else {
        sentinel
    }
}

impl<const N: usize> CasSlots<N> {
    /// The top of the stack as stored: the last free index, or the sentinel.
    pub closed spec fn head_spec(&self) -> usize {
        self.head
    }

    /// Create an empty stack: every link and the head hold the sentinel.
    pub fn new() -> (s: Self)
        ensures
            s.wf(),
            s.stack() == Seq::<usize>::empty(),
            s.head_spec() == N,
    {
        let mut next: Vec<usize> = Vec::new();
        let mut i: usize = 0;
        while i < N
            invariant
                i <= N,
                next@.len() == i,
                forall|j: int| 0 <= j < i ==> next@[j] == N,
            decreases N - i,
        {
            next.push(sentinel::<N>());
            i = i + 1;
        }
        CasSlots { next, head: sentinel::<N>(), stack: Ghost(Seq::empty()) }
    }

    /// Borrow the `next` array.
    fn next_array(&self) -> (r: &[usize])
        ensures
            r@ == self.next@,
    {
        self.next.as_slice()
    }
}

impl<const N: usize> FreeSlots<N> for CasSlots<N> {
    closed spec fn wf(&self) -> bool {
        &&& self.next@.len() == N
        &&& valid_free_stack(self.stack@, N)
        &&& self.head == if self.stack@.len() == 0 {
            N
        } else {
            self.stack@.last()
        }
        &&& chained(self.next@, self.stack@, N)
    }

    closed spec fn stack(&self) -> Seq<usize> {
        self.stack@
    }

    /// Only an index below `N` that is not already free can be linked in.
    closed spec fn put_admits(&self, idx: usize) -> bool {
        idx < N && !self.stack@.contains(idx)
    }

    proof fn lemma_put_admits(&self, idx: usize) {
    }

    fn new() -> (s: Self) {
        CasSlots::new()
    }

    fn fill(&mut self, count: usize) -> (r: Result<(), FillError>) {
        if count > N {
            return Err(FillError);
        }
        // Build the chain: count-1 -> count-2 -> ... -> 0 -> sentinel.
        // Indices >= count keep the sentinel (never used).
        let mut i: usize = 0;
        while i < N
            invariant
                i <= N,
                count <= N,
                self.next@.len() == N,
                forall|j: int| 0 <= j < i ==> self.next@[j] == filled_link(j, count as int, N),
            decreases N - i,
        {
            let link = if i < count {
                if i == 0 {
                    sentinel::<N>()
                } else {
                    i - 1
                }
            } else {
                sentinel::<N>()
            };
            self.next.set(i, link);
            i = i + 1;
        }
        self.head = if count > 0 {
            count - 1
        } else {
            sentinel::<N>()
        };
        self.stack = Ghost(ascending_indices(count as nat));
        proof {
            lemma_ascending_indices_valid(count, N);
            let s = self.stack@;
            assert forall|k: int| 0 <= k < s.len() implies self.next@[#[trigger] s[k] as int]
                == link_below(s, k, N) by {
                assert(s[k] as int == k);
                assert(self.next@[k] == filled_link(k, count as int, N));
            }
        }
        Ok(())
    }

    fn take(&mut self) -> (r: Option<usize>) {
        let head = self.head;
        if head == sentinel::<N>() {
            proof {
                if self.stack@.len() > 0 {
                    assert(self.stack@[self.stack@.len() - 1] < N);
                }
            }
            return None;
        }
        proof {
            let s = self.stack@;
            assert(s[s.len() - 1] < N);
        }
        let below = self.next_array()[head];
        self.head = below;
        proof {
            let s = self.stack@;
            let t = s.drop_last();
            assert(self.next@[s[s.len() - 1] as int] == link_below(s, s.len() - 1, N));
            assert forall|k: int| 0 <= k < t.len() implies self.next@[#[trigger] t[k] as int]
                == link_below(t, k, N) by {
                assert(t[k] == s[k]);
                assert(self.next@[s[k] as int] == link_below(s, k, N));
            }
            lemma_pop_keeps_valid(s, N);
            self.stack@ = t;
        }
        Some(head)
    }

    fn put(&mut self, idx: usize) {
        let head = self.head;
        self.next.set(idx, head);
        self.head = idx;
        proof {
            let s = old(self).stack@;
            let t = s.push(idx);
            assert forall|k: int| 0 <= k < t.len() implies self.next@[#[trigger] t[k] as int]
                == link_below(t, k, N) by {
                if k < s.len() {
                    assert(t[k] == s[k]);
                    assert(s.contains(s[k]));
                    assert(s[k] != idx);
                    assert(old(self).next@[s[k] as int] == link_below(s, k, N));
                }
            }
            lemma_push_keeps_valid(s, N, idx);
            lemma_free_stack_has_room(s, N, idx);
            self.stack@ = t;
        }
    }
}

} // verus!
