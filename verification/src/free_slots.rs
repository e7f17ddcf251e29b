//! Abstract interface for managing free slot indices.
//!
//! A pool depends only on this trait, not on a particular synchronisation
//! mechanism. Two backends are provided: [`CriticalSlots`](crate::critical::CriticalSlots)
//! (the default) and [`CasSlots`](crate::cas::CasSlots).
//!
//! Both backends hand indices out last-in first-out: the free indices form a
//! stack whose top is the last element of [`FreeSlots::stack`].

use vstd::prelude::*;
use vstd::set_lib::FiniteRange;

verus! {

/// Error returned by [`FreeSlots::fill`] when asked for more indices than the
/// backend's capacity.
#[derive(Debug, PartialEq, Eq, Structural)]
pub struct FillError;

/// The indices `0, 1, .., count - 1` in ascending order: the free stack right
/// after `fill(count)`, with `count - 1` on top.
pub open spec fn ascending_indices(count: nat) -> Seq<usize> {
    Seq::new(count, |i: int| i as usize)
}

/// `rest` and `top` are what taking from the free stack `before` leaves and
/// yields: the top index and the stack below it, or nothing from an empty stack.
pub open spec fn popped(before: Seq<usize>, rest: Seq<usize>, top: Option<usize>) -> bool {
    if before.len() == 0 {
        rest == before && top is None
    } else {
        rest == before.drop_last() && top == Some(before.last())
    }
}

/// Last in, first out: right after `put(idx)`, `take` hands `idx` back and
/// leaves the free stack as it was before the `put`.
pub proof fn lemma_put_then_take(before: Seq<usize>, idx: usize, rest: Seq<usize>, top: Option<usize>)
    requires
        popped(before.push(idx), rest, top),
    ensures
        top == Some(idx),
        rest == before,
{
    assert(before.push(idx).drop_last() =~= before);
}

/// Giving back the index just taken undoes the `take`: the free stack is as
/// it was before.
pub proof fn lemma_take_then_put(before: Seq<usize>, rest: Seq<usize>, idx: usize)
    requires
        popped(before, rest, Some(idx)),
    ensures
        rest.push(idx) == before,
{
    assert(before.drop_last().push(before.last()) =~= before);
}

/// A free stack is valid for capacity `n` when it names each index at most once
/// and only indices below `n`.
pub open spec fn valid_free_stack(s: Seq<usize>, n: usize) -> bool {
    &&& s.no_duplicates()
    &&& forall|i: int| 0 <= i < s.len() ==> #[trigger] s[i] < n
}

/// The indices of a valid free stack, as a set, lie in `0..n`, and there are
/// as many of them as the stack is long.
pub proof fn lemma_free_stack_as_set(s: Seq<usize>, n: usize)
    requires
        valid_free_stack(s, n),
    ensures
        s.to_set().subset_of(Set::<usize>::range(0, n)),
        s.to_set().len() == s.len(),
        Set::<usize>::range(0, n).finite(),
        Set::<usize>::range(0, n).len() == n,
{
    usize::range_properties(0, n);
    s.unique_seq_to_set();
    assert forall|v: usize| s.to_set().contains(v) implies Set::<usize>::range(0, n).contains(v) by {
        let i = choose|i: int| 0 <= i < s.len() && s[i] == v;
        assert(s[i] < n);
    }
}

/// A valid free stack that misses some index below `n` has room for it:
/// it holds fewer than `n` indices.
pub proof fn lemma_free_stack_has_room(s: Seq<usize>, n: usize, x: usize)
    requires
        valid_free_stack(s, n),
        x < n,
        !s.contains(x),
    ensures
        s.len() < n,
{
    lemma_free_stack_as_set(s, n);
    s.to_set().lemma_subset_not_in_lt(Set::<usize>::range(0, n), x);
}

/// A valid free stack holds at most `n` indices.
pub proof fn lemma_free_stack_bounded(s: Seq<usize>, n: usize)
    requires
        valid_free_stack(s, n),
    ensures
        s.len() <= n,
{
    lemma_free_stack_as_set(s, n);
    vstd::set_lib::lemma_len_subset(s.to_set(), Set::<usize>::range(0, n));
}

/// Taking the top off a valid free stack leaves a valid stack without it.
pub proof fn lemma_pop_keeps_valid(s: Seq<usize>, n: usize)
    requires
        valid_free_stack(s, n),
        s.len() > 0,
    ensures
        valid_free_stack(s.drop_last(), n),
        s.last() < n,
        !s.drop_last().contains(s.last()),
{
    let t = s.drop_last();
    assert(s[s.len() - 1] < n);
    assert forall|i: int, j: int| 0 <= i < t.len() && 0 <= j < t.len() && i != j implies t[i]
        != t[j] by {
        assert(t[i] == s[i] && t[j] == s[j]);
    }
    assert forall|i: int| 0 <= i < t.len() implies #[trigger] t[i] < n by {
        assert(t[i] == s[i]);
    }
    if t.contains(s.last()) {
        let k = choose|k: int| 0 <= k < t.len() && t[k] == s.last();
        assert(s[k] == s[s.len() - 1]);
    }
}

/// Pushing an index below `n` that is not yet free keeps a free stack valid.
pub proof fn lemma_push_keeps_valid(s: Seq<usize>, n: usize, x: usize)
    requires
        valid_free_stack(s, n),
        x < n,
        !s.contains(x),
    ensures
        valid_free_stack(s.push(x), n),
{
    let t = s.push(x);
    assert forall|i: int, j: int| 0 <= i < t.len() && 0 <= j < t.len() && i != j implies t[i]
        != t[j] by {
        if i < s.len() && j == s.len() {
            assert(s.contains(t[i]));
        }
        if j < s.len() && i == s.len() {
            assert(s.contains(t[j]));
        }
    }
    assert forall|i: int| 0 <= i < t.len() implies #[trigger] t[i] < n by {
        if i < s.len() {
            assert(t[i] == s[i]);
        }
    }
}

/// The stack built by `fill(count)` is valid whenever `count <= n`.
pub proof fn lemma_ascending_indices_valid(count: usize, n: usize)
    requires
        count <= n,
    ensures
        valid_free_stack(ascending_indices(count as nat), n),
{
    let s = ascending_indices(count as nat);
    assert forall|i: int, j: int| 0 <= i < s.len() && 0 <= j < s.len() && i != j implies s[i]
        != s[j] by {}
}

/// A collection of free slot indices, handed out last-in first-out.
///
/// `stack()` is the abstract content: the free indices, the next one to be
/// taken last. A stack holds at most `N` indices: `put` on a full stack changes
/// nothing. Used as a pool's backend it stays a valid free stack for capacity
/// `N` (see [`valid_free_stack`]): `fill` builds one, `take` keeps one valid,
/// and `put` of an index below `N` that is not free keeps one valid.
pub trait FreeSlots<const N: usize>: Sized {
    /// The implementation's internal invariant.
    spec fn wf(&self) -> bool;

    /// The free indices, bottom first; `take` returns the last one.
    spec fn stack(&self) -> Seq<usize>;

    /// The indices that `put` accepts in this state.
    spec fn put_admits(&self, idx: usize) -> bool;

    /// Every backend accepts back, into a valid stack, an index below `N` that
    /// is not free.
    proof fn lemma_put_admits(&self, idx: usize)
        requires
            self.wf(),
            valid_free_stack(self.stack(), N),
            idx < N,
            !self.stack().contains(idx),
        ensures
            self.put_admits(idx),
    ;

    /// Create an empty collection (no free indices).
    fn new() -> (s: Self)
        ensures
            s.wf(),
            s.stack() == Seq::<usize>::empty(),
    ;

    /// Fill with indices `0..count`; fails, changing nothing, when `count > N`.
    fn fill(&mut self, count: usize) -> (r: Result<(), FillError>)
        requires
            old(self).wf(),
        ensures
            final(self).wf(),
            r is Err <==> count > N,
            r is Err ==> final(self).stack() == old(self).stack(),
            r is Ok ==> final(self).stack() == ascending_indices(count as nat),
    ;

    /// Take a free index; `None` when exhausted.
    fn take(&mut self) -> (r: Option<usize>)
        requires
            old(self).wf(),
        ensures
            final(self).wf(),
            popped(old(self).stack(), final(self).stack(), r),
            valid_free_stack(old(self).stack(), N) ==> {
                &&& valid_free_stack(final(self).stack(), N)
                &&& r matches Some(i) ==> i < N && !final(self).stack().contains(i)
            },
    ;

    /// Return an index to the free set. Below capacity it is pushed on top;
    /// on a full stack the call changes nothing.
    fn put(&mut self, idx: usize)
        requires
            old(self).wf(),
            old(self).put_admits(idx),
        ensures
            final(self).wf(),
            old(self).stack().len() < N ==> final(self).stack() == old(self).stack().push(idx),
            old(self).stack().len() >= N ==> final(self).stack() == old(self).stack(),
    ;
}

} // verus!
